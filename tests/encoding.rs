use rmpv::encode::{after_write, WriteStep, MAX_INTERRUPTIONS};
use rmpv::{encode_to_vec, write_value, ByteSink, Error, Integer, SinkError, Utf8String, Value};

fn enc(v: &Value) -> Vec<u8> {
    encode_to_vec(v).unwrap()
}

fn uint(u: u64) -> Value {
    Value::Integer(Integer::from_u64(u))
}

fn sint(i: i64) -> Value {
    Value::Integer(Integer::from_i64(i))
}

fn text(s: &str) -> Value {
    Value::String(Utf8String::from_string(s.to_string()))
}

#[test]
fn nil_and_booleans() {
    assert_eq!(enc(&Value::Nil), vec![0xc0]);
    assert_eq!(enc(&Value::Boolean(true)), vec![0xc3]);
    assert_eq!(enc(&Value::Boolean(false)), vec![0xc2]);
}

#[test]
fn unsigned_integers_take_the_shortest_form() {
    assert_eq!(enc(&uint(0)), vec![0x00]);
    assert_eq!(enc(&uint(127)), vec![0x7f]);
    assert_eq!(enc(&uint(128)), vec![0xcc, 0x80]);
    assert_eq!(enc(&uint(255)), vec![0xcc, 0xff]);
    assert_eq!(enc(&uint(256)), vec![0xcd, 0x01, 0x00]);
    assert_eq!(enc(&uint(65535)), vec![0xcd, 0xff, 0xff]);
    assert_eq!(enc(&uint(65536)), vec![0xce, 0x00, 0x01, 0x00, 0x00]);
    assert_eq!(enc(&uint(4294967296)), vec![0xcf, 0, 0, 0, 1, 0, 0, 0, 0]);
    assert_eq!(enc(&uint(u64::MAX)), vec![0xcf, 0xff, 0xff, 0xff, 0xff, 0xff, 0xff, 0xff, 0xff]);
}

#[test]
fn signed_integers_take_the_shortest_form() {
    assert_eq!(enc(&sint(-1)), vec![0xff]);
    assert_eq!(enc(&sint(-32)), vec![0xe0]);
    assert_eq!(enc(&sint(-33)), vec![0xd0, 0xdf]);
    assert_eq!(enc(&sint(-128)), vec![0xd0, 0x80]);
    assert_eq!(enc(&sint(-129)), vec![0xd1, 0xff, 0x7f]);
    assert_eq!(enc(&sint(-32769)), vec![0xd2, 0xff, 0xff, 0x7f, 0xff]);
    assert_eq!(enc(&sint(-2147483649)), vec![0xd3, 0xff, 0xff, 0xff, 0xff, 0x7f, 0xff, 0xff, 0xff]);
    assert_eq!(enc(&sint(i64::MIN)), vec![0xd3, 0x80, 0, 0, 0, 0, 0, 0, 0]);
    assert_eq!(enc(&sint(5)), enc(&uint(5)));
    assert_eq!(enc(&sint(300)), vec![0xcd, 0x01, 0x2c]);
}

#[test]
fn integer_lengths_are_minimal() {
    let cases: Vec<(i64, usize)> = vec![
        (0, 1), (127, 1), (-32, 1), (128, 2), (-33, 2), (-128, 2), (255, 2), (256, 3),
        (-129, 3), (65535, 3), (65536, 5), (-32769, 5), (4294967295, 5), (4294967296, 9),
        (-2147483649, 9),
    ];
    for (n, len) in cases {
        assert_eq!(enc(&sint(n)).len(), len, "{}", n);
    }
}

#[test]
fn floats_keep_their_width() {
    assert_eq!(enc(&Value::F32(1.0f32.to_bits())), vec![0xca, 0x3f, 0x80, 0x00, 0x00]);
    assert_eq!(enc(&Value::F64(1.0f64.to_bits())), vec![0xcb, 0x3f, 0xf0, 0, 0, 0, 0, 0, 0]);
    assert_eq!(enc(&Value::F64(1.5f64.to_bits())), vec![0xcb, 0x3f, 0xf8, 0, 0, 0, 0, 0, 0]);
}

#[test]
fn strings() {
    assert_eq!(enc(&text("")), vec![0xa0]);
    assert_eq!(enc(&text("abc")), vec![0xa3, b'a', b'b', b'c']);
    assert_eq!(enc(&text("é")), vec![0xa2, 0xc3, 0xa9]);
    let long = "x".repeat(32);
    let mut expected = vec![0xd9, 32];
    expected.extend_from_slice(long.as_bytes());
    assert_eq!(enc(&text(&long)), expected);
    let longer = "y".repeat(300);
    let bytes = enc(&text(&longer));
    assert_eq!(&bytes[..3], &[0xda, 0x01, 0x2c]);
    assert_eq!(bytes.len(), 303);
}

#[test]
fn invalid_utf8_is_written_as_binary() {
    let raw = vec![0xff, 0xfe];
    let err = std::str::from_utf8(&raw).unwrap_err();
    let s = Value::String(Utf8String::from_invalid(raw.clone(), err));
    assert_eq!(enc(&s), vec![0xc4, 0x02, 0xff, 0xfe]);
    assert_eq!(enc(&s), enc(&Value::Binary(raw)));
}

#[test]
fn binary() {
    assert_eq!(enc(&Value::Binary(vec![])), vec![0xc4, 0x00]);
    assert_eq!(enc(&Value::Binary(vec![1, 2, 3])), vec![0xc4, 3, 1, 2, 3]);
    let big = vec![7u8; 256];
    let bytes = enc(&Value::Binary(big));
    assert_eq!(&bytes[..3], &[0xc5, 0x01, 0x00]);
    assert_eq!(bytes.len(), 259);
}

#[test]
fn empty_containers() {
    assert_eq!(enc(&Value::Array(vec![])), vec![0x90]);
    assert_eq!(enc(&Value::Mapping(vec![])), vec![0x80]);
    let bytes = enc(&Value::Array(vec![]));
    assert_eq!(rmp::decode::read_array_len(&mut &bytes[..]).unwrap(), 0);
    let bytes = enc(&Value::Mapping(vec![]));
    assert_eq!(rmp::decode::read_map_len(&mut &bytes[..]).unwrap(), 0);
}

#[test]
fn arrays_keep_element_order() {
    let v = Value::Array(vec![uint(1), text("a"), Value::Nil, Value::Boolean(true)]);
    assert_eq!(enc(&v), vec![0x94, 0x01, 0xa1, b'a', 0xc0, 0xc3]);
    let sixteen = Value::Array((0..16).map(uint).collect());
    let bytes = enc(&sixteen);
    assert_eq!(&bytes[..3], &[0xdc, 0x00, 0x10]);
    assert_eq!(&bytes[3..], &(0..16).collect::<Vec<u8>>()[..]);
}

#[test]
fn map_keeps_duplicate_keys_in_order() {
    let v = Value::Mapping(vec![(text("a"), uint(1)), (text("b"), uint(2)), (text("a"), uint(1))]);
    assert_eq!(
        enc(&v),
        vec![0x83, 0xa1, b'a', 0x01, 0xa1, b'b', 0x02, 0xa1, b'a', 0x01]
    );
}

#[test]
fn extensions() {
    assert_eq!(enc(&Value::Ext(5, vec![9])), vec![0xd4, 5, 9]);
    assert_eq!(enc(&Value::Ext(1, vec![1, 2])), vec![0xd5, 1, 1, 2]);
    assert_eq!(enc(&Value::Ext(-1, vec![1, 2, 3])), vec![0xc7, 3, 0xff, 1, 2, 3]);
    assert_eq!(enc(&Value::Ext(2, vec![])), vec![0xc7, 0, 2]);
    assert_eq!(enc(&Value::Ext(3, vec![0; 16]))[..2], [0xd8, 3]);
}

#[test]
fn deeply_nested_arrays() {
    let mut v = Value::Array(vec![]);
    for _ in 0..1000 {
        v = Value::Array(vec![v]);
    }
    let bytes = enc(&v);
    assert_eq!(bytes.len(), 1001);
    let mut rd = &bytes[..];
    for _ in 0..1000 {
        assert_eq!(rmp::decode::read_array_len(&mut rd).unwrap(), 1);
    }
    assert_eq!(rmp::decode::read_array_len(&mut rd).unwrap(), 0);
    assert!(rd.is_empty());
}

#[test]
fn round_trip_through_a_reader() {
    let v = Value::Array(vec![
        sint(-200),
        uint(70000),
        text("hello"),
        Value::Binary(vec![1, 2]),
        Value::Mapping(vec![(uint(1), Value::Boolean(false))]),
        Value::F32(2.5f32.to_bits()),
    ]);
    let bytes = enc(&v);
    let mut rd = &bytes[..];
    assert_eq!(rmp::decode::read_array_len(&mut rd).unwrap(), 6);
    assert_eq!(rmp::decode::read_int::<i64, _>(&mut rd).unwrap(), -200);
    assert_eq!(rmp::decode::read_int::<u64, _>(&mut rd).unwrap(), 70000);
    let mut buf = [0u8; 16];
    assert_eq!(rmp::decode::read_str(&mut rd, &mut buf).unwrap(), "hello");
    assert_eq!(rmp::decode::read_bin_len(&mut rd).unwrap(), 2);
    assert_eq!(&rd[..2], &[1, 2]);
    rd = &rd[2..];
    assert_eq!(rmp::decode::read_map_len(&mut rd).unwrap(), 1);
    assert_eq!(rmp::decode::read_int::<u64, _>(&mut rd).unwrap(), 1);
    assert_eq!(rmp::decode::read_bool(&mut rd).unwrap(), false);
    assert_eq!(rmp::decode::read_f32(&mut rd).unwrap(), 2.5f32);
    assert!(rd.is_empty());
}

/// Takes at most one byte per call and reports an interruption before every other call.
struct Flaky {
    bytes: Vec<u8>,
    calls: usize,
}

impl ByteSink for Flaky {
    fn write(&mut self, buf: &[u8]) -> Result<usize, SinkError> {
        self.calls += 1;
        if self.calls % 2 == 1 {
            return Err(SinkError::Interrupted);
        }
        if buf.is_empty() {
            return Ok(0);
        }
        self.bytes.push(buf[0]);
        Ok(1)
    }
}

#[test]
fn interruptions_do_not_change_the_output() {
    let v = Value::Mapping(vec![
        (text("key"), Value::Array(vec![uint(300), sint(-5), Value::Ext(7, vec![1, 2, 3])])),
        (Value::Nil, Value::F64(0.25f64.to_bits())),
    ]);
    let mut sink = Flaky { bytes: Vec::new(), calls: 0 };
    assert_eq!(write_value(&mut sink, &v), Ok(()));
    assert_eq!(sink.bytes, enc(&v));
}

/// Takes `budget` bytes, then fails.
struct Failing {
    bytes: Vec<u8>,
    budget: usize,
    zero: bool,
}

impl ByteSink for Failing {
    fn write(&mut self, buf: &[u8]) -> Result<usize, SinkError> {
        if self.budget == 0 {
            if self.zero {
                return Ok(0);
            }
            return Err(SinkError::Other("full".to_string()));
        }
        let n = buf.len().min(self.budget);
        self.bytes.extend_from_slice(&buf[..n]);
        self.budget -= n;
        Ok(n)
    }
}

#[test]
fn failure_on_a_marker() {
    let mut sink = Failing { bytes: Vec::new(), budget: 0, zero: false };
    assert_eq!(
        write_value(&mut sink, &uint(1)),
        Err(Error::InvalidMarkerWrite(SinkError::Other("full".to_string())))
    );
    assert!(sink.bytes.is_empty());
}

#[test]
fn failure_on_payload_bytes() {
    let mut sink = Failing { bytes: Vec::new(), budget: 1, zero: false };
    assert_eq!(
        write_value(&mut sink, &uint(1000)),
        Err(Error::InvalidDataWrite(SinkError::Other("full".to_string())))
    );
    assert_eq!(sink.bytes, vec![0xcd]);
}

#[test]
fn failure_stops_before_later_siblings() {
    let v = Value::Array(vec![uint(1), uint(2), uint(3)]);
    let mut sink = Failing { bytes: Vec::new(), budget: 2, zero: false };
    assert_eq!(
        write_value(&mut sink, &v),
        Err(Error::InvalidMarkerWrite(SinkError::Other("full".to_string())))
    );
    assert_eq!(sink.bytes, vec![0x93, 0x01]);
}

#[test]
fn a_sink_that_takes_nothing() {
    let mut sink = Failing { bytes: Vec::new(), budget: 0, zero: true };
    assert_eq!(
        write_value(&mut sink, &Value::Nil),
        Err(Error::InvalidMarkerWrite(SinkError::WriteZero))
    );
}

#[test]
fn writing_into_a_vec_appends() {
    let mut out = vec![0xaa];
    assert_eq!(write_value(&mut out, &Value::Boolean(true)), Ok(()));
    assert_eq!(out, vec![0xaa, 0xc3]);
}

#[test]
fn float_bytes_are_big_endian() {
    assert_eq!(rmpv::wire::f32_bytes(0x0102_0304), vec![0xca, 1, 2, 3, 4]);
    assert_eq!(rmpv::wire::f64_bytes(0x0102_0304_0506_0708), vec![0xcb, 1, 2, 3, 4, 5, 6, 7, 8]);
}

#[test]
fn step_after_a_write() {
    assert_eq!(after_write(Ok(3), 2, 10, 0), WriteStep::Advance(5));
    assert_eq!(after_write(Ok(8), 2, 10, 7), WriteStep::Advance(10));
    assert_eq!(after_write(Ok(0), 2, 10, 0), WriteStep::Fail(SinkError::WriteZero));
    assert_eq!(after_write(Err(SinkError::Interrupted), 0, 1, 0), WriteStep::Retry);
    assert_eq!(after_write(Err(SinkError::Interrupted), 0, 1, MAX_INTERRUPTIONS - 1), WriteStep::Retry);
    assert_eq!(
        after_write(Err(SinkError::Interrupted), 0, 1, MAX_INTERRUPTIONS),
        WriteStep::Fail(SinkError::Interrupted)
    );
    assert_eq!(
        after_write(Err(SinkError::Other("gone".to_string())), 0, 1, 0),
        WriteStep::Fail(SinkError::Other("gone".to_string()))
    );
    assert_eq!(after_write(Err(SinkError::WriteZero), 4, 9, 2), WriteStep::Fail(SinkError::WriteZero));
}

#[test]
fn failure_inside_a_nested_payload() {
    // [ "abc" ]: the array marker, the string marker, then payload bytes.
    let v = Value::Array(vec![text("abc")]);
    let mut sink = Failing { bytes: Vec::new(), budget: 3, zero: false };
    assert_eq!(
        write_value(&mut sink, &v),
        Err(Error::InvalidDataWrite(SinkError::Other("full".to_string())))
    );
    assert_eq!(sink.bytes, vec![0x91, 0xa3, b'a']);
}
