//! The recursive encoder: a `Value` to its canonical bytes, written to a sink.
use vstd::prelude::*;
use vstd::slice::slice_subrange;

use crate::wire::{
    array_header, array_len_bytes, bin_bytes, bin_header, bool_bytes, ext_header, ext_meta_bytes,
    f32_bytes, f32_encoding, f64_bytes, f64_encoding, int_encoding, map_header, map_len_bytes,
    nil_bytes, sint_bytes, str_bytes, str_header, uint_bytes, MAX_LEN,
};
use crate::{IntPriv, Integer, Utf8String, Value};

verus! {

broadcast use {
    vstd::std_specs::vec::axiom_vec_decreases_to_view,
    vstd::std_specs::vec::axiom_vec_index_decreases,
    vstd::seq::axiom_seq_index_decreases,
    vstd::seq::axiom_seq_subrange_decreases,
};

/// The bytes of a string payload: text as a string, bytes that failed validation as binary.
pub open spec fn string_encoding(s: Utf8String) -> Seq<u8> {
    if s.is_text() {
        str_header(s.bytes().len()) + s.bytes()
    } else {
        bin_header(s.bytes().len()) + s.bytes()
    }
}

/// The canonical encoding of `v`: a node's own bytes, then its children in stored order.
pub open spec fn encoding(v: Value) -> Seq<u8>
    decreases v,
{
    match v {
        Value::Nil => seq![0xc0u8],
        Value::Boolean(b) => if b {
            seq![0xc3u8]
        } else {
            seq![0xc2u8]
        },
        Value::Integer(i) => int_encoding(i.value()),
        Value::F32(bits) => f32_encoding(bits),
        Value::F64(bits) => f64_encoding(bits),
        Value::String(s) => string_encoding(s),
        Value::Binary(b) => bin_header(b@.len()) + b@,
        Value::Array(items) => array_header(items@.len()) + items_encoding(items@),
        Value::Mapping(pairs) => map_header(pairs@.len()) + pairs_encoding(pairs@),
        Value::Ext(ty, data) => ext_header(data@.len(), ty) + data@,
    }
}

/// The encodings of `items`, one after another.
pub open spec fn items_encoding(items: Seq<Value>) -> Seq<u8>
    decreases items,
{
    if items.len() == 0 {
        Seq::empty()
    } else {
        items_encoding(items.drop_last()) + encoding(items.last())
    }
}

/// Each pair of `pairs` encoded as its key, then its value.
pub open spec fn pairs_encoding(pairs: Seq<(Value, Value)>) -> Seq<u8>
    decreases pairs,
{
    if pairs.len() == 0 {
        Seq::empty()
    } else {
        pairs_encoding(pairs.drop_last()) + encoding(pairs.last().0) + encoding(pairs.last().1)
    }
}

/// Whether every length in `v` fits a MessagePack length field.
pub open spec fn fits(v: Value) -> bool
    decreases v,
{
    match v {
        Value::String(s) => s.bytes().len() <= MAX_LEN,
        Value::Binary(b) => b@.len() <= MAX_LEN,
        Value::Array(items) => items@.len() <= MAX_LEN && items_fit(items@),
        Value::Mapping(pairs) => pairs@.len() <= MAX_LEN && pairs_fit(pairs@),
        Value::Ext(_, data) => data@.len() <= MAX_LEN,
        _ => true,
    }
}

/// Whether every element of `items` fits.
pub open spec fn items_fit(items: Seq<Value>) -> bool
    decreases items,
{
    items.len() == 0 || (items_fit(items.drop_last()) && fits(items.last()))
}

/// Whether every key and every value of `pairs` fits.
pub open spec fn pairs_fit(pairs: Seq<(Value, Value)>) -> bool
    decreases pairs,
{
    pairs.len() == 0 || (pairs_fit(pairs.drop_last()) && fits(pairs.last().0) && fits(
        pairs.last().1,
    ))
}

proof fn lemma_items_fit(items: Seq<Value>, i: int)
    requires
        0 <= i < items.len(),
    ensures
        items_fit(items.take(i + 1)) <==> (items_fit(items.take(i)) && fits(items[i])),
        items_fit(items) ==> fits(items[i]),
    decreases items.len(),
{
    assert(items.take(i + 1).drop_last() =~= items.take(i));
    if i < items.len() - 1 {
        lemma_items_fit(items.drop_last(), i);
    }
}

proof fn lemma_pairs_fit(pairs: Seq<(Value, Value)>, i: int)
    requires
        0 <= i < pairs.len(),
    ensures
        pairs_fit(pairs.take(i + 1)) <==> (pairs_fit(pairs.take(i)) && fits(pairs[i].0) && fits(
            pairs[i].1,
        )),
        pairs_fit(pairs) ==> fits(pairs[i].0) && fits(pairs[i].1),
    decreases pairs.len(),
{
    assert(pairs.take(i + 1).drop_last() =~= pairs.take(i));
    if i < pairs.len() - 1 {
        lemma_pairs_fit(pairs.drop_last(), i);
    }
}

/// The byte tags of an item of `n` bytes: `tag` for its marker, 0 for the data after it.
pub open spec fn item_marks(n: nat, tag: int) -> Seq<int> {
    Seq::new(n, |i: int| if i == 0 { tag } else { 0 })
}

/// The tag of the marker of `v`: 1, or 2 when the length of `v` itself does not fit.
pub open spec fn node_tag(v: Value) -> int {
    if own_length_fits(v) {
        1
    } else {
        2
    }
}

/// A tag for each byte of `encoding(v)`: 0 for data, and for the marker of an item the tag of the
/// node that the item starts. Containers write their header as one item and then their
/// children; every other node is one item, but for an extension, whose payload follows its
/// header as data.
pub open spec fn markers(v: Value) -> Seq<int>
    decreases v,
{
    match v {
        Value::Array(items) => item_marks(array_header(items@.len()).len(), node_tag(v))
            + items_markers(items@),
        Value::Mapping(pairs) => item_marks(map_header(pairs@.len()).len(), node_tag(v))
            + pairs_markers(pairs@),
        _ => item_marks(encoding(v).len(), node_tag(v)),
    }
}

pub open spec fn items_markers(items: Seq<Value>) -> Seq<int>
    decreases items,
{
    if items.len() == 0 {
        Seq::empty()
    } else {
        items_markers(items.drop_last()) + markers(items.last())
    }
}

pub open spec fn pairs_markers(pairs: Seq<(Value, Value)>) -> Seq<int>
    decreases pairs,
{
    if pairs.len() == 0 {
        Seq::empty()
    } else {
        pairs_markers(pairs.drop_last()) + markers(pairs.last().0) + markers(pairs.last().1)
    }
}

/// Whether the length of `v` itself, not of its children, fits a length field.
pub open spec fn own_length_fits(v: Value) -> bool {
    match v {
        Value::String(s) => s.bytes().len() <= MAX_LEN,
        Value::Binary(b) => b@.len() <= MAX_LEN,
        Value::Array(items) => items@.len() <= MAX_LEN,
        Value::Mapping(pairs) => pairs@.len() <= MAX_LEN,
        Value::Ext(_, data) => data@.len() <= MAX_LEN,
        _ => true,
    }
}

proof fn lemma_markers_len(v: Value)
    ensures
        markers(v).len() == encoding(v).len(),
    decreases v,
{
    match v {
        Value::Array(items) => {
            assert(decreases_to!(v => items));
            lemma_items_markers_len(items@);
        },
        Value::Mapping(pairs) => {
            assert(decreases_to!(v => pairs));
            lemma_pairs_markers_len(pairs@);
        },
        _ => {},
    }
}

proof fn lemma_items_markers_len(s: Seq<Value>)
    ensures
        items_markers(s).len() == items_encoding(s).len(),
    decreases s,
{
    if s.len() > 0 {
        lemma_items_markers_len(s.drop_last());
        lemma_markers_len(s.last());
    }
}

proof fn lemma_pairs_markers_len(s: Seq<(Value, Value)>)
    ensures
        pairs_markers(s).len() == pairs_encoding(s).len(),
    decreases s,
{
    if s.len() > 0 {
        lemma_pairs_markers_len(s.drop_last());
        assert(decreases_to!(s => s.last()));
        lemma_markers_len(s.last().0);
        lemma_markers_len(s.last().1);
    }
}

proof fn lemma_items_markers_take(s: Seq<Value>, i: int)
    requires
        0 <= i < s.len(),
    ensures
        (items_markers(s.take(i)) + markers(s[i])).is_prefix_of(items_markers(s)),
        items_markers(s.take(i)).len() == items_encoding(s.take(i)).len(),
    decreases s.len() - i,
{
    lemma_items_markers_len(s.take(i));
    assert(s.take(i + 1).drop_last() =~= s.take(i));
    if i + 1 == s.len() {
        assert(s.take(i + 1) =~= s);
    } else {
        lemma_items_markers_take(s, i + 1);
        lemma_prefix_append(items_markers(s.take(i + 1)), markers(s[i + 1]));
        lemma_prefix_trans(
            items_markers(s.take(i + 1)),
            items_markers(s.take(i + 1)) + markers(s[i + 1]),
            items_markers(s),
        );
    }
}

proof fn lemma_pairs_markers_take(s: Seq<(Value, Value)>, i: int)
    requires
        0 <= i < s.len(),
    ensures
        (pairs_markers(s.take(i)) + markers(s[i].0) + markers(s[i].1)).is_prefix_of(
            pairs_markers(s),
        ),
        pairs_markers(s.take(i)).len() == pairs_encoding(s.take(i)).len(),
    decreases s.len() - i,
{
    lemma_pairs_markers_len(s.take(i));
    assert(s.take(i + 1).drop_last() =~= s.take(i));
    if i + 1 == s.len() {
        assert(s.take(i + 1) =~= s);
    } else {
        lemma_pairs_markers_take(s, i + 1);
        let nxt = pairs_markers(s.take(i + 1));
        lemma_prefix_append(nxt, markers(s[i + 1].0) + markers(s[i + 1].1));
        assert(nxt + markers(s[i + 1].0) + markers(s[i + 1].1) =~= nxt + (markers(s[i + 1].0)
            + markers(s[i + 1].1)));
        lemma_prefix_trans(
            nxt,
            nxt + markers(s[i + 1].0) + markers(s[i + 1].1),
            pairs_markers(s),
        );
    }
}

/// A flag inside `part` keeps its value in any sequence that extends `pre + part`.
proof fn lemma_mark_in_part(pre: Seq<int>, part: Seq<int>, whole: Seq<int>, k: int)
    requires
        (pre + part).is_prefix_of(whole),
        0 <= k < part.len(),
    ensures
        pre.len() + k < whole.len(),
        whole[pre.len() + k] == part[k],
{
    assert((pre + part)[pre.len() + k] == part[k]);
}

/// A failure reported by a sink.
#[derive(Debug, PartialEq, Eq)]
pub enum SinkError {
    /// The write was interrupted before it took any byte; it may be retried.
    Interrupted,
    /// The sink took no byte of a non-empty buffer.
    WriteZero,
    /// Any other failure, with its description.
    Other(String),
}

/// A failure of an encode: the sink failed while a marker or payload bytes were written, or a
/// length did not fit its field.
#[derive(Debug, PartialEq, Eq)]
pub enum Error {
    InvalidMarkerWrite(SinkError),
    InvalidDataWrite(SinkError),
    LengthOverflow,
}

/// A destination for bytes, such as a file, a socket or a buffer.
///
/// The model functions have defaults only so that code outside `verus!` can implement the
/// trait. Such an implementation keeps the default model, which no sink that takes a byte can
/// meet, so the contracts of this crate promise nothing for it; they hold for sinks that define
/// the model and are verified against `write`, such as `Vec<u8>`.
pub trait ByteSink {
    /// Everything that this sink has taken so far.
    closed spec fn written(&self) -> Seq<u8> {
        Seq::empty()
    }

    /// Whether every write to this sink takes the whole buffer.
    closed spec fn infallible(&self) -> bool {
        false
    }

    /// How many writes so far reported an interruption.
    closed spec fn interruptions(&self) -> nat {
        0
    }

    /// How many writes so far took no byte and reported no failure.
    closed spec fn zero_writes(&self) -> nat {
        0
    }

    /// How many writes so far reported a failure other than an interruption.
    closed spec fn errors(&self) -> nat {
        0
    }

    /// The failure that the latest failed write reported.
    closed spec fn last_error(&self) -> Option<SinkError> {
        None
    }

    /// Takes a prefix of the non-empty `buf` and reports its length; on failure it takes nothing.
    fn write(&mut self, buf: &[u8]) -> (r: Result<usize, SinkError>)
        requires
            buf@.len() > 0,
        ensures
            r is Err ==> final(self).last_error() == Some(r->Err_0),
            r is Ok ==> final(self).last_error() == old(self).last_error(),
            final(self).interruptions() == old(self).interruptions() + if r matches Err(
                SinkError::Interrupted,
            ) {
                1nat
            } else {
                0nat
            },
            final(self).zero_writes() == old(self).zero_writes() + if r == Ok::<usize, SinkError>(
                0,
            ) {
                1nat
            } else {
                0nat
            },
            final(self).errors() == old(self).errors() + if r is Err && !(r->Err_0 is Interrupted) {
                1nat
            } else {
                0nat
            },
            match r {
                Ok(n) => n <= buf@.len() && final(self).written() == old(self).written()
                    + buf@.take(n as int),
                Err(_) => final(self).written() == old(self).written(),
            },
            old(self).infallible() ==> r == Ok::<usize, SinkError>(buf@.len() as usize)
                && final(self).infallible(),
    ;
}

impl ByteSink for Vec<u8> {
    open spec fn written(&self) -> Seq<u8> {
        self@
    }

    open spec fn infallible(&self) -> bool {
        true
    }

    open spec fn interruptions(&self) -> nat {
        0
    }

    open spec fn zero_writes(&self) -> nat {
        0
    }

    open spec fn errors(&self) -> nat {
        0
    }

    open spec fn last_error(&self) -> Option<SinkError> {
        None
    }

    /// Appends the whole buffer; never fails.
    fn write(&mut self, buf: &[u8]) -> (r: Result<usize, SinkError>)
        ensures
            r == Ok::<usize, SinkError>(buf@.len() as usize),
            final(self)@ == old(self)@ + buf@,
    {
        let mut i: usize = 0;
        while i < buf.len()
            invariant
                i <= buf@.len(),
                self@ == old(self)@ + buf@.take(i as int),
            decreases buf@.len() - i,
        {
            self.push(buf[i]);
            assert(buf@.take(i as int + 1) == buf@.take(i as int).push(buf@[i as int]));
            i += 1;
        }
        assert(buf@.take(buf@.len() as int) == buf@);
        Ok(buf.len())
    }
}

/// Whether `after`, a later state of the sink `before`, shows the failure `e`: an interruption
/// after more than `MAX_INTERRUPTIONS` of them, `WriteZero` after a write that took nothing, or
/// else the failure that the sink's latest failed write reported.
pub open spec fn reported<S: ByteSink>(before: S, after: S, e: SinkError) -> bool {
    ||| e is Interrupted && after.interruptions() > before.interruptions() + MAX_INTERRUPTIONS
    ||| e is WriteZero && after.zero_writes() > before.zero_writes()
    ||| !(e is Interrupted) && after.last_error() == Some(e) && after.errors() > before.errors()
}

/// Whether the failure counts of the sink did not go down from `before` to `after`.
pub open spec fn counts_grow<S: ByteSink>(before: S, after: S) -> bool {
    &&& after.interruptions() >= before.interruptions()
    &&& after.zero_writes() >= before.zero_writes()
    &&& after.errors() >= before.errors()
}

/// How many interruptions one buffer may meet before the interruption is reported.
pub const MAX_INTERRUPTIONS: u64 = 0xffff_ffff_ffff_ffff;

/// What the writer does after one call of a sink's `write`.
#[derive(Debug, PartialEq, Eq)]
pub enum WriteStep {
    /// The sink took bytes: continue from this position.
    Advance(usize),
    /// The write was interrupted: make the same call again.
    Retry,
    /// Stop with this failure.
    Fail(SinkError),
}

/// Decides what follows the result `res` of writing `buf[pos..len]`, after `interruptions`
/// earlier interruptions of the same buffer.
pub fn after_write(res: Result<usize, SinkError>, pos: usize, len: usize, interruptions: u64) -> (s:
    WriteStep)
    requires
        pos < len,
        res matches Ok(n) ==> n <= len - pos,
    ensures
        res == Ok::<usize, SinkError>(0) ==> s == WriteStep::Fail(SinkError::WriteZero),
        res is Ok && res->Ok_0 > 0 ==> s == WriteStep::Advance((pos + res->Ok_0) as usize),
        res matches Err(SinkError::Interrupted) && interruptions < MAX_INTERRUPTIONS ==> s
            == WriteStep::Retry,
        res matches Err(SinkError::Interrupted) && interruptions == MAX_INTERRUPTIONS ==> s
            == WriteStep::Fail(SinkError::Interrupted),
        res is Err && !(res->Err_0 is Interrupted) ==> s == WriteStep::Fail(res->Err_0),
{
    match res {
        Ok(n) => if n == 0 {
            WriteStep::Fail(SinkError::WriteZero)
        } else {
            WriteStep::Advance(pos + n)
        },
        Err(SinkError::Interrupted) => if interruptions < MAX_INTERRUPTIONS {
            WriteStep::Retry
        } else {
            WriteStep::Fail(SinkError::Interrupted)
        },
        Err(e) => WriteStep::Fail(e),
    }
}

/// Writes all of `buf`: each result of the sink goes through `after_write`, so an interruption
/// repeats the same write and any other failure ends the loop.
fn write_all<S: ByteSink>(wr: &mut S, buf: &[u8]) -> (r: Result<(), SinkError>)
    ensures
        r is Ok ==> final(wr).written() == old(wr).written() + buf@,
        r is Err ==> old(wr).written().is_prefix_of(final(wr).written()),
        r is Err ==> final(wr).written().is_prefix_of(old(wr).written() + buf@),
        r is Err ==> final(wr).written().len() < old(wr).written().len() + buf@.len(),
        r is Err ==> reported(*old(wr), *final(wr), r->Err_0),
        counts_grow(*old(wr), *final(wr)),
        old(wr).infallible() ==> r is Ok && final(wr).infallible(),
{
    let mut pos: usize = 0;
    let mut interruptions: u64 = 0;
    assert(wr.written() =~= (old(wr).written() + buf@).subrange(0, wr.written().len() as int));
    while pos < buf.len()
        invariant
            pos <= buf@.len(),
            wr.written() == old(wr).written() + buf@.take(pos as int),
            old(wr).infallible() ==> wr.infallible(),
            wr.written().is_prefix_of(old(wr).written() + buf@),
            wr.interruptions() == old(wr).interruptions() + interruptions,
            wr.zero_writes() == old(wr).zero_writes(),
            wr.errors() == old(wr).errors(),
        decreases buf@.len() - pos, MAX_INTERRUPTIONS - interruptions,
    {
        let rest = slice_subrange(buf, pos, buf.len());
        let res = wr.write(rest);
        let ghost got = res;
        match after_write(res, pos, buf.len(), interruptions) {
            WriteStep::Advance(next) => {
                let ghost n = got->Ok_0;
                assert(buf@.take(pos + n) == buf@.take(pos as int) + rest@.take(n as int));
                pos = next;
                assert(wr.written() =~= (old(wr).written() + buf@).subrange(0, wr.written().len() as int));
            },
            WriteStep::Retry => {
                interruptions = interruptions + 1;
            },
            WriteStep::Fail(e) => {
                return Err(e);
            },
        }
    }
    assert(buf@.take(buf@.len() as int) == buf@);
    Ok(())
}

/// Writes one item produced by the codec: its first byte as the marker, the rest as data.
fn emit<S: ByteSink>(wr: &mut S, bytes: &Vec<u8>) -> (r: Result<(), Error>)
    requires
        bytes@.len() > 0,
    ensures
        r is Ok ==> final(wr).written() == old(wr).written() + bytes@,
        r is Err ==> !(r matches Err(Error::LengthOverflow)) && old(wr).written().is_prefix_of(
            final(wr).written(),
        ) && final(wr).written().is_prefix_of(old(wr).written() + bytes@),
        r matches Err(Error::InvalidMarkerWrite(_)) ==> final(wr).written() == old(wr).written(),
        r is Err ==> reported(*old(wr), *final(wr), sink_error(r->Err_0)),
        counts_grow(*old(wr), *final(wr)),
        r matches Err(Error::InvalidDataWrite(_)) ==> old(wr).written().len() < final(wr).written().len(),
        r matches Err(Error::InvalidDataWrite(_)) ==> final(wr).written().len() < old(wr).written().len() + bytes@.len(),
        old(wr).infallible() ==> r is Ok && final(wr).infallible(),
{
    let b = bytes.as_slice();
    let ghost start = wr.written();
    proof {
        assert(b@ == b@.subrange(0, 1) + b@.subrange(1, b@.len() as int));
        lemma_prefix_append(start + b@.subrange(0, 1), b@.subrange(1, b@.len() as int));
        assert(start + b@.subrange(0, 1) + b@.subrange(1, b@.len() as int) =~= start + b@);
    }
    match write_all(wr, slice_subrange(b, 0, 1)) {
        Err(e) => {
            proof {
                lemma_prefix_trans(wr.written(), start + b@.subrange(0, 1), start + b@);
                assert(wr.written() =~= start);
            }
            return Err(Error::InvalidMarkerWrite(e));
        },
        Ok(()) => {},
    }
    match write_all(wr, slice_subrange(b, 1, b.len())) {
        Err(e) => {
            proof {
                lemma_prefix_trans(start, start + b@.subrange(0, 1), wr.written());
                lemma_prefix_append(start, b@.subrange(0, 1));
            }
            Err(Error::InvalidDataWrite(e))
        },
        Ok(()) => Ok(()),
    }
}

/// Writes payload bytes.
fn emit_data<S: ByteSink>(wr: &mut S, data: &[u8]) -> (r: Result<(), Error>)
    ensures
        r is Ok ==> final(wr).written() == old(wr).written() + data@,
        r is Err ==> r matches Err(Error::InvalidDataWrite(_)),
        r is Err ==> old(wr).written().is_prefix_of(final(wr).written()),
        r is Err ==> final(wr).written().is_prefix_of(old(wr).written() + data@),
        r is Err ==> final(wr).written().len() < old(wr).written().len() + data@.len(),
        r is Err ==> reported(*old(wr), *final(wr), sink_error(r->Err_0)),
        counts_grow(*old(wr), *final(wr)),
        old(wr).infallible() ==> r is Ok && final(wr).infallible(),
{
    match write_all(wr, data) {
        Err(e) => Err(Error::InvalidDataWrite(e)),
        Ok(()) => Ok(()),
    }
}

proof fn lemma_prefix_trans<A>(a: Seq<A>, b: Seq<A>, c: Seq<A>)
    requires
        a.is_prefix_of(b),
        b.is_prefix_of(c),
    ensures
        a.is_prefix_of(c),
{
    assert(a =~= c.subrange(0, a.len() as int));
}

proof fn lemma_prefix_append<A>(a: Seq<A>, b: Seq<A>)
    ensures
        a.is_prefix_of(a + b),
{
    assert(a =~= (a + b).subrange(0, a.len() as int));
}

proof fn lemma_prefix_extend<A>(a: Seq<A>, b: Seq<A>, c: Seq<A>)
    requires
        b.is_prefix_of(c),
    ensures
        (a + b).is_prefix_of(a + c),
{
    assert(a + b =~= (a + c).subrange(0, (a + b).len() as int));
}

proof fn lemma_items_take_prefix(s: Seq<Value>, i: int)
    requires
        0 <= i <= s.len(),
    ensures
        items_encoding(s.take(i)).is_prefix_of(items_encoding(s)),
    decreases s.len() - i,
{
    if i == s.len() {
        assert(s.take(i) =~= s);
    } else {
        lemma_items_take_prefix(s, i + 1);
        assert(s.take(i + 1).drop_last() =~= s.take(i));
        lemma_prefix_append(items_encoding(s.take(i)), encoding(s[i]));
        lemma_prefix_trans(
            items_encoding(s.take(i)),
            items_encoding(s.take(i + 1)),
            items_encoding(s),
        );
    }
}

proof fn lemma_pairs_take_prefix(s: Seq<(Value, Value)>, i: int)
    requires
        0 <= i <= s.len(),
    ensures
        pairs_encoding(s.take(i)).is_prefix_of(pairs_encoding(s)),
    decreases s.len() - i,
{
    if i == s.len() {
        assert(s.take(i) =~= s);
    } else {
        lemma_pairs_take_prefix(s, i + 1);
        assert(s.take(i + 1).drop_last() =~= s.take(i));
        lemma_prefix_append(pairs_encoding(s.take(i)), encoding(s[i].0) + encoding(s[i].1));
        assert(pairs_encoding(s.take(i)) + (encoding(s[i].0) + encoding(s[i].1))
            =~= pairs_encoding(s.take(i + 1)));
        lemma_prefix_trans(
            pairs_encoding(s.take(i)),
            pairs_encoding(s.take(i + 1)),
            pairs_encoding(s),
        );
    }
}

proof fn lemma_pair_error_prefix(
    start: Seq<u8>,
    before: Seq<u8>,
    pairs: Seq<(Value, Value)>,
    i: int,
    part: Seq<u8>,
)
    requires
        0 <= i < pairs.len(),
        before == start + map_header(pairs.len()) + pairs_encoding(pairs.take(i)),
        part.is_prefix_of(encoding(pairs[i].0) + encoding(pairs[i].1)),
    ensures
        (before + part).is_prefix_of(start + (map_header(pairs.len()) + pairs_encoding(pairs))),
{
    let hdr = map_header(pairs.len());
    let both = encoding(pairs[i].0) + encoding(pairs[i].1);
    let next = pairs_encoding(pairs.take(i + 1));
    assert(pairs.take(i + 1).drop_last() =~= pairs.take(i));
    assert(next =~= pairs_encoding(pairs.take(i)) + both);
    lemma_pairs_take_prefix(pairs, i + 1);
    lemma_prefix_extend(before, part, both);
    assert(before + both =~= start + (hdr + next));
    lemma_prefix_extend(hdr, next, pairs_encoding(pairs));
    lemma_prefix_extend(start, hdr + next, hdr + pairs_encoding(pairs));
    lemma_prefix_trans(before + part, before + both, start + (hdr + pairs_encoding(pairs)));
}

/// The sink's failure that `e` carries.
pub open spec fn sink_error(e: Error) -> SinkError {
    match e {
        Error::InvalidMarkerWrite(x) => x,
        Error::InvalidDataWrite(x) => x,
        Error::LengthOverflow => SinkError::WriteZero,
    }
}

/// Whether an encode of `v` that failed with `e` after taking `k` of its bytes stopped where `e`
/// says: at the marker of an item of a node that fits for a failed marker write; inside an item
/// for a failed data write; at the start of a node whose own length does not fit, before any byte
/// of its header, for `LengthOverflow`.
pub open spec fn failed_at(v: Value, e: Error, k: int) -> bool {
    &&& 0 <= k < markers(v).len()
    &&& match e {
        Error::InvalidDataWrite(_) => markers(v)[k] == 0,
        Error::InvalidMarkerWrite(_) => markers(v)[k] == 1,
        Error::LengthOverflow => markers(v)[k] == 2,
    }
}

proof fn lemma_fail_lifts(item: Value, e: Error, kk: int, pre: Seq<int>, whole: Seq<int>)
    requires
        failed_at(item, e, kk),
        (pre + markers(item)).is_prefix_of(whole),
    ensures
        0 <= pre.len() + kk < whole.len(),
        whole[pre.len() + kk] == markers(item)[kk],
{
    lemma_mark_in_part(pre, markers(item), whole, kk);
}

/// Encodes `val` and writes its bytes to `wr`, depth first: a node's own marker and payload
/// before its children, array elements and map pairs in stored order. Interrupted writes are
/// retried at the point where they failed; any other sink failure ends the encode at once.
pub fn write_value<S: ByteSink>(wr: &mut S, val: &Value) -> (r: Result<(), Error>)
    ensures
        r is Ok ==> fits(*val) && final(wr).written() == old(wr).written() + encoding(*val),
        r matches Err(Error::LengthOverflow) ==> !fits(*val),
        fits(*val) ==> !(r matches Err(Error::LengthOverflow)),
        r is Err ==> old(wr).written().is_prefix_of(final(wr).written()),
        r is Err ==> final(wr).written().is_prefix_of(old(wr).written() + encoding(*val)),
        r is Err ==> failed_at(*val, r->Err_0, final(wr).written().len() - old(wr).written().len()),
        !own_length_fits(*val) ==> (r matches Err(Error::LengthOverflow)) && final(wr).written()
            == old(wr).written(),
        r is Err && !(r->Err_0 is LengthOverflow) ==> reported(
            *old(wr),
            *final(wr),
            sink_error(r->Err_0),
        ),
        counts_grow(*old(wr), *final(wr)),
        fits(*val) && final(wr).zero_writes() == old(wr).zero_writes() && final(wr).errors()
            == old(wr).errors() && final(wr).interruptions() <= old(wr).interruptions()
            + MAX_INTERRUPTIONS ==> r is Ok && final(wr).written()
            == old(wr).written() + encoding(*val),
        old(wr).infallible() ==> final(wr).infallible() && (r is Ok <==> fits(*val)) && (r is Err
            ==> r matches Err(Error::LengthOverflow)),
    decreases val,
{
    match val {
        Value::Nil => emit(wr, &nil_bytes()),
        Value::Boolean(b) => emit(wr, &bool_bytes(*b)),
        Value::Integer(Integer { n }) => match n {
            IntPriv::PosInt(u) => emit(wr, &uint_bytes(*u)),
            IntPriv::NegInt(i) => emit(wr, &sint_bytes(*i)),
        },
        Value::F32(bits) => emit(wr, &f32_bytes(*bits)),
        Value::F64(bits) => emit(wr, &f64_bytes(*bits)),
        Value::String(Utf8String { s }) => match s {
            Ok(text) => {
                let t = text.as_str();
                if t.as_bytes().len() > MAX_LEN {
                    return Err(Error::LengthOverflow);
                }
                emit(wr, &str_bytes(t))
            },
            Err(e) => {
                if e.0.len() > MAX_LEN {
                    return Err(Error::LengthOverflow);
                }
                emit(wr, &bin_bytes(e.0.as_slice()))
            },
        },
        Value::Binary(data) => {
            if data.len() > MAX_LEN {
                return Err(Error::LengthOverflow);
            }
            emit(wr, &bin_bytes(data.as_slice()))
        },
        Value::Array(items) => {
            if items.len() > MAX_LEN {
                return Err(Error::LengthOverflow);
            }
            proof {
                assert(*val == Value::Array(*items));
                assert(decreases_to!(*val => val->Array_0));
                assert(decreases_to!(*val => *items));
            }
            let ghost start = wr.written();
            match emit(wr, &array_len_bytes(items.len() as u32)) {
                Err(e) => {
                    return Err(e);
                },
                Ok(()) => {},
            }
            let mut i: usize = 0;
            while i < items.len()
                invariant
                    i <= items@.len(),
                    items@.len() <= MAX_LEN,
                    *val == Value::Array(*items),
                    decreases_to!(*val => *items),
                    wr.written() == start + array_header(items@.len()) + items_encoding(
                        items@.take(i as int),
                    ),
                    items_fit(items@.take(i as int)),
                    old(wr).written() == start,
                    fits(*val) ==> items_fit(items@),
                    old(wr).infallible() ==> wr.infallible(),
                    counts_grow(*old(wr), *wr),
                decreases items@.len() - i,
            {
                let ghost before = wr.written();
                proof {
                    lemma_items_fit(items@, i as int);
                    assert(decreases_to!(*items => items[i as int]));
                }
                match write_value(wr, &items[i]) {
                    Err(e) => {
                        proof {
                            lemma_prefix_append(start, before.subrange(start.len() as int, before.len() as int));
                            assert(start + before.subrange(start.len() as int, before.len() as int) =~= before);
                            lemma_prefix_trans(start, before, wr.written());
                            let hdr = array_header(items@.len());
                            let next = items_encoding(items@.take(i + 1));
                            assert(items@.take(i + 1).drop_last() =~= items@.take(i as int));
                            lemma_items_take_prefix(items@, i + 1);
                            assert(before + encoding(items@[i as int]) =~= start + (hdr + next));
                            lemma_prefix_extend(hdr, next, items_encoding(items@));
                            lemma_prefix_extend(start, hdr + next, hdr + items_encoding(items@));
                            lemma_prefix_trans(wr.written(), before + encoding(items@[i as int]), start + encoding(*val));
                            let marks = item_marks(hdr.len(), node_tag(*val));
                            lemma_items_markers_take(items@, i as int);
                            let part = items_markers(items@.take(i as int)) + markers(items@[i as int]);
                            lemma_prefix_extend(marks, part, items_markers(items@));
                            assert(marks + part =~= (marks + items_markers(items@.take(i as int))) + markers(items@[i as int]));
                            lemma_fail_lifts(items@[i as int], e, wr.written().len() - before.len(), marks + items_markers(items@.take(i as int)), markers(*val));
                        }
                        return Err(e);
                    },
                    Ok(()) => {},
                }
                assert(items@.take(i + 1).drop_last() =~= items@.take(i as int));
                i += 1;
            }
            assert(items@.take(items@.len() as int) =~= items@);

            Ok(())
        },
        Value::Mapping(pairs) => {
            if pairs.len() > MAX_LEN {
                return Err(Error::LengthOverflow);
            }
            proof {
                assert(decreases_to!(*val => val->Mapping_0));
            }
            let ghost start = wr.written();
            match emit(wr, &map_len_bytes(pairs.len() as u32)) {
                Err(e) => {
                    return Err(e);
                },
                Ok(()) => {},
            }
            let mut i: usize = 0;
            while i < pairs.len()
                invariant
                    i <= pairs@.len(),
                    pairs@.len() <= MAX_LEN,
                    *val == Value::Mapping(*pairs),
                    decreases_to!(*val => *pairs),
                    wr.written() == start + map_header(pairs@.len()) + pairs_encoding(
                        pairs@.take(i as int),
                    ),
                    pairs_fit(pairs@.take(i as int)),
                    old(wr).written() == start,
                    fits(*val) ==> pairs_fit(pairs@),
                    old(wr).infallible() ==> wr.infallible(),
                    counts_grow(*old(wr), *wr),
                decreases pairs@.len() - i,
            {
                let ghost before = wr.written();
                let pair = &pairs[i];
                proof {
                    lemma_pairs_fit(pairs@, i as int);
                    assert(decreases_to!(*pairs => pairs[i as int]));
                    assert(decreases_to!(pairs[i as int] => pairs[i as int].0));
                    assert(decreases_to!(pairs[i as int] => pairs[i as int].1));
                }
                match write_value(wr, &pair.0) {
                    Err(e) => {
                        proof {
                            assert(start + before.subrange(start.len() as int, before.len() as int) =~= before);
                            lemma_prefix_append(start, before.subrange(start.len() as int, before.len() as int));
                            lemma_prefix_trans(start, before, wr.written());
                            lemma_pair_error_prefix(start, before, pairs@, i as int, encoding(pairs@[i as int].0));
                            lemma_prefix_trans(wr.written(), before + encoding(pairs@[i as int].0), start + encoding(*val));
                            let marks = item_marks(map_header(pairs@.len()).len(), node_tag(*val));
                            lemma_pairs_markers_take(pairs@, i as int);
                            let pm = pairs_markers(pairs@.take(i as int));
                            let part = pm + markers(pairs@[i as int].0) + markers(pairs@[i as int].1);
                            lemma_prefix_extend(marks, part, pairs_markers(pairs@));
                            lemma_prefix_append(marks + pm + markers(pairs@[i as int].0), markers(pairs@[i as int].1));
                            assert(marks + part =~= marks + pm + markers(pairs@[i as int].0) + markers(pairs@[i as int].1));
                            lemma_prefix_trans(marks + pm + markers(pairs@[i as int].0), marks + part, markers(*val));
                            lemma_fail_lifts(pairs@[i as int].0, e, wr.written().len() - before.len(), marks + pm, markers(*val));
                        }
                        return Err(e);
                    },
                    Ok(()) => {},
                }
                let ghost mid = wr.written();
                match write_value(wr, &pair.1) {
                    Err(e) => {
                        proof {
                            assert(start + mid.subrange(start.len() as int, mid.len() as int) =~= mid);
                            lemma_prefix_append(start, mid.subrange(start.len() as int, mid.len() as int));
                            lemma_prefix_trans(start, mid, wr.written());
                            lemma_pair_error_prefix(start, before, pairs@, i as int, encoding(pairs@[i as int].0) + encoding(pairs@[i as int].1));
                            assert(mid + encoding(pairs@[i as int].1) =~= before + (encoding(pairs@[i as int].0) + encoding(pairs@[i as int].1)));
                            lemma_prefix_trans(wr.written(), mid + encoding(pairs@[i as int].1), start + encoding(*val));
                            let marks = item_marks(map_header(pairs@.len()).len(), node_tag(*val));
                            lemma_pairs_markers_take(pairs@, i as int);
                            lemma_markers_len(pairs@[i as int].0);
                            let pm = pairs_markers(pairs@.take(i as int));
                            let part = pm + markers(pairs@[i as int].0) + markers(pairs@[i as int].1);
                            lemma_prefix_extend(marks, part, pairs_markers(pairs@));
                            assert(marks + part =~= (marks + pm + markers(pairs@[i as int].0)) + markers(pairs@[i as int].1));
                            lemma_fail_lifts(pairs@[i as int].1, e, wr.written().len() - mid.len(), marks + pm + markers(pairs@[i as int].0), markers(*val));
                        }
                        return Err(e);
                    },
                    Ok(()) => {},
                }
                assert(pairs@.take(i + 1).drop_last() =~= pairs@.take(i as int));
                i += 1;
            }
            assert(pairs@.take(pairs@.len() as int) =~= pairs@);
            Ok(())
        },
        Value::Ext(ty, data) => {
            if data.len() > MAX_LEN {
                return Err(Error::LengthOverflow);
            }
            let ghost start = wr.written();
            match emit(wr, &ext_meta_bytes(data.len() as u32, *ty)) {
                Err(e) => {
                    return Err(e);
                },
                Ok(()) => {},
            }
            let ghost mid = wr.written();
            let r = emit_data(wr, data.as_slice());
            proof {
                if r is Err {
                    assert(start + mid.subrange(start.len() as int, mid.len() as int) =~= mid);
                    lemma_prefix_append(start, mid.subrange(start.len() as int, mid.len() as int));
                    lemma_prefix_trans(start, mid, wr.written());
                }
            }
            r
        },
    }
}

/// Encodes `val` into a fresh buffer. Fails exactly when a length in `val` does not fit.
pub fn encode_to_vec(val: &Value) -> (r: Result<Vec<u8>, Error>)
    ensures
        r is Ok <==> fits(*val),
        r matches Ok(bytes) ==> bytes@ == encoding(*val),
        r is Err ==> r matches Err(Error::LengthOverflow),
{
    let mut buf: Vec<u8> = Vec::new();
    match write_value(&mut buf, val) {
        Ok(()) => {
            assert(buf@ == Seq::<u8>::empty() + encoding(*val));
            Ok(buf)
        },
        Err(e) => Err(e),
    }
}

} // verus!
