use dynamic_codec::dynamic::{DynError, Dynamic, Store};
use dynamic_codec::json::{FromJson, JsonError, ToJson};
use dynamic_codec::msgpack::{MpError, MsgPack, MsgUnpack};
use dynamic_codec::ZOnce;

fn enc(store: &Store, d: &Dynamic) -> Vec<u8> {
    let mut buf = Vec::new();
    d.encode(store, &mut buf);
    buf
}

fn js(store: &Store, d: &Dynamic) -> String {
    let mut buf = String::new();
    d.to_json(store, &mut buf);
    buf
}

#[test]
fn int_size_selection() {
    let store = Store::new();
    assert_eq!(enc(&store, &Dynamic::Int(0)), vec![0x00]);
    assert_eq!(enc(&store, &Dynamic::Int(-1)), vec![0xff]);
    assert_eq!(enc(&store, &Dynamic::Int(1000)), vec![0xd1, 0x03, 0xe8]);
    assert_eq!(enc(&store, &Dynamic::Int(100000)), vec![0xd2, 0x00, 0x01, 0x86, 0xa0]);
    assert_eq!(enc(&store, &Dynamic::Int(-100)), vec![0xd0, 0x9c]);
    assert_eq!(enc(&store, &Dynamic::Int(127)), vec![0x7f]);
    assert_eq!(enc(&store, &Dynamic::Int(-31)), vec![0xe1]);
    // -32 is the bottom of the negative fixint range: one byte, not int8
    assert_eq!(enc(&store, &Dynamic::Int(-32)), vec![0xe0]);
    assert_eq!(enc(&store, &Dynamic::Int(-33)), vec![0xd0, 0xdf]);
}

#[test]
fn string_length_tiering() {
    let store = Store::new();
    let s31 = "a".repeat(31);
    let s32 = "a".repeat(32);
    let s256 = "a".repeat(256);
    assert_eq!(enc(&store, &Dynamic::Str(s31))[0], 0xa0 | 31);
    assert_eq!(enc(&store, &Dynamic::Str(s32))[0], 0xd9);
    let e256 = enc(&store, &Dynamic::Str(s256));
    assert_eq!(e256[0], 0xda);
    assert_eq!(&e256[1..3], &[0x01, 0x00]);
}

#[test]
fn equality_quirk() {
    let mut store = Store::new();
    let a = Dynamic::vec(&mut store);
    let b = Dynamic::vec(&mut store);
    assert!(!(a == b));
    assert!(!(a.clone() == a));
    let m = Dynamic::map(&mut store);
    assert!(!(m.clone() == m));
    // scalars compare by value, bytes by content
    assert!(Dynamic::Int(3) == Dynamic::Int(3));
    assert!(Dynamic::Str(String::from("x")) == Dynamic::Str(String::from("x")));
    assert!(Dynamic::from_bytes(vec![1, 2]) == Dynamic::from_bytes(vec![1, 2]));
    assert!(Dynamic::Int(3) != Dynamic::UInt(3));
}

#[test]
fn ieee_equality() {
    let nan = f64::NAN.to_bits();
    assert!(Dynamic::Double(nan) != Dynamic::Double(nan));
    assert!(Dynamic::Double(0.0f64.to_bits()) == Dynamic::Double((-0.0f64).to_bits()));
    assert!(Dynamic::Float(f32::NAN.to_bits()) != Dynamic::Float(f32::NAN.to_bits()));
}

#[test]
fn alias_mutation() {
    let mut store = Store::new();
    let a = Dynamic::vec(&mut store);
    let b = a.clone();
    a.push(&mut store, Dynamic::Int(1)).unwrap();
    assert_eq!(b.len(&store).unwrap(), 1);
    assert!(b.get(&store, 0).unwrap() == Dynamic::Int(1));
}

#[test]
fn truncated_buffer_rejected() {
    let mut store = Store::new();
    let r = Dynamic::decode(&mut store, &[0xa5, 0x61, 0x62]);
    assert_eq!(r.unwrap_err(), MpError::Insufficient);
    let r2 = Dynamic::decode(&mut store, &[0xcd, 0x01]);
    assert_eq!(r2.unwrap_err(), MpError::Insufficient);
}

#[test]
fn reserved_tag_rejected() {
    let mut store = Store::new();
    let r = Dynamic::decode(&mut store, &[0xc1, 0x00]);
    assert_eq!(r.unwrap_err(), MpError::Reserved);
}

#[test]
fn end_to_end_example() {
    let mut store = Store::new();
    let other = Dynamic::vec(&mut store);
    other.push(&mut store, Dynamic::Int(10)).unwrap();
    other.push(&mut store, Dynamic::Str(String::from("aa"))).unwrap();
    other.push(&mut store, Dynamic::Double(30.0f64.to_bits())).unwrap();
    let m = Dynamic::map(&mut store);
    m.set_key(&mut store, "name", Dynamic::Str(String::from("zhu"))).unwrap();
    m.set_key(&mut store, "age", Dynamic::Int(10)).unwrap();
    m.set_key(&mut store, "other", other).unwrap();

    let text = js(&store, &m);
    assert_eq!(text, "{\"age\": 10,\n\"name\": \"zhu\",\n\"other\": [10,\n\"aa\",\n30]}");

    let bytes = enc(&store, &m);
    assert_eq!(bytes[0], 0x83);
    // first key is "age": fixstr of three bytes
    assert_eq!(&bytes[1..5], &[0xa3, 0x61, 0x67, 0x65]);
    assert_eq!(bytes[5], 10);
    // then "name"
    assert_eq!(&bytes[6..11], &[0xa4, 0x6e, 0x61, 0x6d, 0x65]);
}

#[test]
fn msgpack_round_trip_scalars() {
    let mut store = Store::new();
    let cases = vec![
        Dynamic::Null,
        Dynamic::Bool(true),
        Dynamic::Bool(false),
        Dynamic::Int(0),
        Dynamic::Int(-5),
        Dynamic::Int(300),
        Dynamic::Int(-70000),
        Dynamic::Int(i64::MAX),
        Dynamic::Int(i64::MIN),
        Dynamic::Double(2.5f64.to_bits()),
        Dynamic::Str(String::from("hello")),
        Dynamic::Str(String::from("")),
        Dynamic::from_bytes(vec![0, 1, 2, 255]),
    ];
    for v in cases {
        let bytes = enc(&store, &v);
        let (back, used) = Dynamic::decode(&mut store, &bytes).unwrap();
        assert_eq!(used, bytes.len());
        assert!(back == v);
    }
}

#[test]
fn msgpack_containers_round_trip() {
    let mut store = Store::new();
    let arr = Dynamic::vec(&mut store);
    arr.push(&mut store, Dynamic::Int(1)).unwrap();
    arr.push(&mut store, Dynamic::Str(String::from("x"))).unwrap();
    let m = Dynamic::map(&mut store);
    m.set_key(&mut store, "k", arr.clone()).unwrap();
    m.set_key(&mut store, "b", Dynamic::Bool(true)).unwrap();
    let bytes = enc(&store, &m);
    let (back, used) = Dynamic::decode(&mut store, &bytes).unwrap();
    assert_eq!(used, bytes.len());
    let karr = back.get_key(&store, "k").unwrap();
    assert_eq!(karr.len(&store).unwrap(), 2);
    assert!(karr.get(&store, 0).unwrap() == Dynamic::Int(1));
    assert!(karr.get(&store, 1).unwrap() == Dynamic::Str(String::from("x")));
    assert!(back.get_key(&store, "b").unwrap() == Dynamic::Bool(true));
}

#[test]
fn msgpack_uint_and_byte_narrow() {
    let mut store = Store::new();
    // UInt rides the signed path: a value above i64::MAX wraps
    let bytes = enc(&store, &Dynamic::UInt(5));
    let (back, _) = Dynamic::decode(&mut store, &bytes).unwrap();
    assert!(back == Dynamic::Int(5));
    // Byte encodes as the uint8 tag and decodes as Int
    let bytes2 = enc(&store, &Dynamic::Byte(7));
    assert_eq!(bytes2, vec![0xcc, 7]);
    let (back2, _) = Dynamic::decode(&mut store, &bytes2).unwrap();
    assert!(back2 == Dynamic::Int(7));
    // uint64 with the top bit set reads back negative
    let (wrap, _) = Dynamic::decode(&mut store, &[0xcf, 0xff, 0xff, 0xff, 0xff, 0xff, 0xff, 0xff, 0xff]).unwrap();
    assert!(wrap == Dynamic::Int(-1));
}

#[test]
fn msgpack_float_widens() {
    let store = Store::new();
    let bytes = enc(&store, &Dynamic::Float(1.5f32.to_bits()));
    let mut expect = vec![0xcb];
    expect.extend_from_slice(&(1.5f64).to_bits().to_be_bytes());
    assert_eq!(bytes, expect);
    // a float32 on the wire widens to a Double
    let mut store2 = Store::new();
    let mut wire = vec![0xca];
    wire.extend_from_slice(&(2.25f32).to_bits().to_be_bytes());
    let (back, used) = Dynamic::decode(&mut store2, &wire).unwrap();
    assert_eq!(used, 5);
    assert!(back == Dynamic::Double((2.25f64).to_bits()));
}

#[test]
fn msgpack_ext_skipped() {
    let mut store = Store::new();
    let (v, used) = Dynamic::decode(&mut store, &[0xd4, 0x05, 0x42]).unwrap();
    assert!(v.is_null());
    assert_eq!(used, 3);
    let (v2, used2) = Dynamic::decode(&mut store, &[0xc7, 0x02, 0x01, 0xaa, 0xbb]).unwrap();
    assert!(v2.is_null());
    assert_eq!(used2, 5);
}

#[test]
fn json_parse_scalars() {
    let mut store = Store::new();
    let (v, n) = Dynamic::from_json(&mut store, b"  true").unwrap();
    assert!(v == Dynamic::Bool(true));
    assert_eq!(n, 6);
    let (v2, _) = Dynamic::from_json(&mut store, b"null").unwrap();
    assert!(v2.is_null());
    let (v3, _) = Dynamic::from_json(&mut store, b"-42").unwrap();
    assert!(v3 == Dynamic::Int(-42));
    let (v4, _) = Dynamic::from_json(&mut store, b"\"hi\\n\\\"there\\\"\"").unwrap();
    assert!(v4 == Dynamic::Str(String::from("hi\n\"there\"")));
    let (v5, _) = Dynamic::from_json(&mut store, b"\"\\u0041\\u00e9\"").unwrap();
    assert!(v5 == Dynamic::Str(String::from("A\u{e9}")));
}

#[test]
fn json_parse_numbers() {
    let mut store = Store::new();
    let (v, _) = Dynamic::from_json(&mut store, b"30.0").unwrap();
    assert!(v == Dynamic::Double(30.0f64.to_bits()));
    let (v2, _) = Dynamic::from_json(&mut store, b"3.14").unwrap();
    assert!(v2 == Dynamic::Double(3.14f64.to_bits()));
    let (v3, _) = Dynamic::from_json(&mut store, b"-0.5").unwrap();
    assert!(v3 == Dynamic::Double((-0.5f64).to_bits()));
    let (v4, _) = Dynamic::from_json(&mut store, b"2.5e3").unwrap();
    assert!(v4 == Dynamic::Double(2500.0f64.to_bits()));
    let (v5, _) = Dynamic::from_json(&mut store, b"0.1").unwrap();
    assert!(v5 == Dynamic::Double(0.1f64.to_bits()));
    let r = Dynamic::from_json(&mut store, b"1.2.3");
    assert_eq!(r.unwrap_err(), JsonError::BadNumber);
    // wide exponents, overflow to infinity, and gradual underflow
    let (w1, _) = Dynamic::from_json(&mut store, b"1.0e25").unwrap();
    assert!(w1 == Dynamic::Double(1.0e25f64.to_bits()));
    let (w2, _) = Dynamic::from_json(&mut store, b"1.0e300").unwrap();
    assert!(w2 == Dynamic::Double(1.0e300f64.to_bits()));
    let (w3, _) = Dynamic::from_json(&mut store, b"123456789012345678901234.5").unwrap();
    assert!(w3 == Dynamic::Double("123456789012345678901234.5".parse::<f64>().unwrap().to_bits()));
    let (w4, _) = Dynamic::from_json(&mut store, b"1.0e999").unwrap();
    assert!(w4 == Dynamic::Double(f64::INFINITY.to_bits()));
    let (w5, _) = Dynamic::from_json(&mut store, b"-1.0e999").unwrap();
    assert!(w5 == Dynamic::Double(f64::NEG_INFINITY.to_bits()));
    let (w6, _) = Dynamic::from_json(&mut store, b"1.0e-999").unwrap();
    assert!(w6 == Dynamic::Double(0.0f64.to_bits()));
    let (w7, _) = Dynamic::from_json(&mut store, b"5.0e-324").unwrap();
    assert!(w7 == Dynamic::Double(5.0e-324f64.to_bits()));
    let (w8, _) = Dynamic::from_json(&mut store, b"2.2250738585072011e-308").unwrap();
    assert!(w8 == Dynamic::Double(2.2250738585072011e-308f64.to_bits()));
    // a long mantissa still rounds exactly as the standard parser does
    let long = format!("0.{}5", "3".repeat(400));
    let (w9, _) = Dynamic::from_json(&mut store, long.as_bytes()).unwrap();
    assert!(w9 == Dynamic::Double(long.parse::<f64>().unwrap().to_bits()));
}

#[test]
fn json_double_text_round_trips() {
    let mut store = Store::new();
    let fractional: Vec<f64> = vec![0.1, 0.5, 3.14, -2.75, 5.0e-324, 2.2250738585072011e-308];
    for v in fractional {
        let text = js(&store, &Dynamic::Double(v.to_bits()));
        // the exact expansion reparses to the very same pattern, and agrees
        // with what the standard parser makes of it
        let (back, used) = Dynamic::from_json(&mut store, text.as_bytes()).unwrap();
        assert_eq!(used, text.len());
        assert!(back == Dynamic::Double(v.to_bits()));
        assert_eq!(text.parse::<f64>().unwrap().to_bits(), v.to_bits());
    }
    // an integral double prints as a plain integer, so its text reparses on
    // the integer path
    let integral: Vec<f64> = vec![30.0, 1.0e25, 1.0e300, 340282366920938463463374607431768211456.0];
    for v in integral {
        let text = js(&store, &Dynamic::Double(v.to_bits()));
        assert_eq!(text.parse::<f64>().unwrap().to_bits(), v.to_bits());
    }
    let (t30, _) = Dynamic::from_json(&mut store, b"30").unwrap();
    assert!(t30 == Dynamic::Int(30));
    assert_eq!(js(&store, &Dynamic::Double(f64::NAN.to_bits())), "NaN");
    assert_eq!(js(&store, &Dynamic::Double(f64::INFINITY.to_bits())), "inf");
    assert_eq!(js(&store, &Dynamic::Double(f64::NEG_INFINITY.to_bits())), "-inf");
}

#[test]
fn json_parse_containers() {
    let mut store = Store::new();
    let (v, n) = Dynamic::from_json(&mut store, b"{\"a\": [1, true, null], \"b\": \"x\"}").unwrap();
    assert_eq!(n, 32);
    let a = v.get_key(&store, "a").unwrap();
    assert_eq!(a.len(&store).unwrap(), 3);
    assert!(a.get(&store, 0).unwrap() == Dynamic::Int(1));
    assert!(a.get(&store, 1).unwrap() == Dynamic::Bool(true));
    assert!(a.get(&store, 2).unwrap().is_null());
    assert!(v.get_key(&store, "b").unwrap() == Dynamic::Str(String::from("x")));
    // a comma between elements is optional
    let (v2, _) = Dynamic::from_json(&mut store, b"[1 2]").unwrap();
    assert_eq!(v2.len(&store).unwrap(), 2);
}

#[test]
fn json_parse_errors() {
    let mut store = Store::new();
    assert_eq!(Dynamic::from_json(&mut store, b"   ").unwrap_err(), JsonError::EndOfInput);
    assert_eq!(Dynamic::from_json(&mut store, b"{x: 1}").unwrap_err(), JsonError::NeedKey);
    assert_eq!(Dynamic::from_json(&mut store, b"{\"a\" 1}").unwrap_err(), JsonError::NeedColon);
    assert_eq!(Dynamic::from_json(&mut store, b"\"bad\\q\"").unwrap_err(), JsonError::UnknownEscape);
    assert_eq!(Dynamic::from_json(&mut store, b"zz").unwrap_err(), JsonError::BadNumber);
    assert_eq!(Dynamic::from_json(&mut store, b"[1,").unwrap_err(), JsonError::EndOfInput);
    // a string the buffer ends before closing is malformed
    assert_eq!(Dynamic::from_json(&mut store, b"\"abc").unwrap_err(), JsonError::BadString);
    assert_eq!(Dynamic::from_json(&mut store, b"{\"key").unwrap_err(), JsonError::BadString);
    assert_eq!(Dynamic::from_json(&mut store, b"\"trailing\\").unwrap_err(), JsonError::BadString);
}

#[test]
fn utf8_constructor() {
    assert!(Dynamic::try_from_utf8(b"hi there").unwrap() == Dynamic::Str(String::from("hi there")));
    assert!(Dynamic::try_from_utf8("séné".as_bytes()).unwrap() == Dynamic::Str(String::from("séné")));
    assert_eq!(Dynamic::try_from_utf8(&[0xff, 0xfe]).unwrap_err(), DynError::InvalidUtf8);
}

#[test]
fn json_round_trip_tree() {
    let mut store = Store::new();
    let arr = Dynamic::vec(&mut store);
    arr.push(&mut store, Dynamic::Int(7)).unwrap();
    arr.push(&mut store, Dynamic::Str(String::from("s"))).unwrap();
    arr.push(&mut store, Dynamic::Null).unwrap();
    let m = Dynamic::map(&mut store);
    m.set_key(&mut store, "list", arr).unwrap();
    m.set_key(&mut store, "flag", Dynamic::Bool(false)).unwrap();
    let text = js(&store, &m);
    let (back, used) = Dynamic::from_json(&mut store, text.as_bytes()).unwrap();
    assert_eq!(used, text.len());
    assert_eq!(back.len(&store).unwrap(), 2);
    assert!(back.get_key(&store, "flag").unwrap() == Dynamic::Bool(false));
    let l = back.get_key(&store, "list").unwrap();
    assert_eq!(l.len(&store).unwrap(), 3);
    assert!(l.get(&store, 0).unwrap() == Dynamic::Int(7));
    assert!(l.get(&store, 1).unwrap() == Dynamic::Str(String::from("s")));
    assert!(l.get(&store, 2).unwrap().is_null());
}

#[test]
fn json_serialize_special_variants() {
    let mut store = Store::new();
    // Byte, UInt, Float and Bytes have no JSON literal form
    assert_eq!(js(&store, &Dynamic::Byte(9)), "null");
    assert_eq!(js(&store, &Dynamic::UInt(9)), "null");
    assert_eq!(js(&store, &Dynamic::Float(1.0f32.to_bits())), "null");
    assert_eq!(js(&store, &Dynamic::from_bytes(vec![1])), "null");
    assert_eq!(js(&store, &Dynamic::Double(0.5f64.to_bits())), "0.5");
    assert_eq!(js(&store, &Dynamic::Double((-0.0f64).to_bits())), "-0");
    assert_eq!(js(&store, &Dynamic::Int(-17)), "-17");
    let e = Dynamic::vec(&mut store);
    assert_eq!(js(&store, &e), "[]");
    let eo = Dynamic::map(&mut store);
    assert_eq!(js(&store, &eo), "{}");
}

#[test]
fn container_operations() {
    let mut store = Store::new();
    let a = Dynamic::vec(&mut store);
    assert_eq!(a.pop(&mut store).unwrap_err(), DynError::Empty);
    a.push(&mut store, Dynamic::Int(1)).unwrap();
    a.push(&mut store, Dynamic::Int(2)).unwrap();
    assert_eq!(a.get(&store, 5).unwrap_err(), DynError::IndexOutOfBounds);
    assert!(a.pop(&mut store).unwrap() == Dynamic::Int(2));
    assert_eq!(a.len(&store).unwrap(), 1);
    assert_eq!(Dynamic::Int(1).len(&store).unwrap_err(), DynError::TypeMismatch);

    let m = Dynamic::map(&mut store);
    assert_eq!(m.get_key(&store, "k").unwrap_err(), DynError::KeyNotFound);
    assert!(m.set_key(&mut store, "k", Dynamic::Int(5)).unwrap().is_none());
    let prev = m.set_key(&mut store, "k", Dynamic::Int(6)).unwrap();
    assert!(prev.unwrap() == Dynamic::Int(5));
    assert!(m.contains(&store, "k").unwrap());
    assert!(!m.contains(&store, "z").unwrap());
    let removed = m.remove_key(&mut store, "k").unwrap();
    assert!(removed.unwrap() == Dynamic::Int(6));
    assert!(m.remove_key(&mut store, "k").unwrap().is_none());
    assert_eq!(m.len(&store).unwrap(), 0);
}

#[test]
fn append_merges() {
    let mut store = Store::new();
    let m1 = Dynamic::map(&mut store);
    let m2 = Dynamic::map(&mut store);
    m1.set_key(&mut store, "a", Dynamic::Int(1)).unwrap();
    m1.set_key(&mut store, "b", Dynamic::Int(2)).unwrap();
    m2.set_key(&mut store, "b", Dynamic::Int(20)).unwrap();
    m2.set_key(&mut store, "c", Dynamic::Int(30)).unwrap();
    m1.append(&mut store, &m2).unwrap();
    assert_eq!(m1.len(&store).unwrap(), 3);
    assert!(m1.get_key(&store, "b").unwrap() == Dynamic::Int(20));
    assert_eq!(m1.append(&mut store, &Dynamic::Int(1)).unwrap_err(), DynError::TypeMismatch);

    let a1 = Dynamic::vec(&mut store);
    let a2 = Dynamic::vec(&mut store);
    a1.push(&mut store, Dynamic::Int(1)).unwrap();
    a2.push(&mut store, Dynamic::Int(2)).unwrap();
    a1.append(&mut store, &a2).unwrap();
    assert_eq!(a1.len(&store).unwrap(), 2);
    assert!(a1.get(&store, 1).unwrap() == Dynamic::Int(2));
}

#[test]
fn accessors_and_constructors() {
    let mut store = Store::new();
    assert!(Dynamic::Str(String::from("s")).is_string());
    assert!(Dynamic::Null.is_null());
    assert!(Dynamic::Bool(true).is_bool());
    assert!(Dynamic::vec(&mut store).is_vec());
    assert!(Dynamic::map(&mut store).is_map());
    assert_eq!(Dynamic::Str(String::from("s")).as_str().unwrap(), "s");
    assert_eq!(Dynamic::Bool(true).as_bool().unwrap(), true);
    assert_eq!(Dynamic::Int(-1).as_u64().unwrap(), u64::MAX);
    assert_eq!(Dynamic::UInt(3).as_u64().unwrap(), 3);
    assert_eq!(Dynamic::Null.as_u64().unwrap_err(), DynError::TypeMismatch);
    assert_eq!(Dynamic::Str(String::from("w")).into_string().unwrap(), "w");

    let d = Dynamic::from_vec(&mut store, vec![Dynamic::Int(1), Dynamic::Int(2)]);
    assert_eq!(d.len(&store).unwrap(), 2);
    let snap = d.clone().into_vec(&store).unwrap();
    assert_eq!(snap.len(), 2);

    let entries = vec![
        (String::from("b"), Dynamic::Int(2)),
        (String::from("a"), Dynamic::Int(1)),
        (String::from("b"), Dynamic::Int(3)),
    ];
    let m = Dynamic::from_map(&mut store, entries);
    assert_eq!(m.len(&store).unwrap(), 2);
    // a later duplicate overwrites, and keys come out sorted
    assert!(m.get_key(&store, "b").unwrap() == Dynamic::Int(3));
    assert_eq!(js(&store, &m), "{\"a\": 1,\n\"b\": 3}");

    assert!(Dynamic::from(String::from("q")) == Dynamic::Str(String::from("q")));
    assert!(Dynamic::from(true) == Dynamic::Bool(true));
    assert!(Dynamic::from(4i64) == Dynamic::Int(4));
    assert!(Dynamic::default().is_null());
}

#[test]
fn skip_white_and_zonce() {
    assert_eq!(dynamic_codec::skip_white(b"  \t\r\n x"), Ok(6));
    assert_eq!(dynamic_codec::skip_white(b"x"), Ok(0));
    assert_eq!(dynamic_codec::skip_white(b"   "), Err(()));
    let mut z = ZOnce::new("", ",\n");
    assert_eq!(z.take(), "");
    assert_eq!(z.take(), ",\n");
    assert_eq!(z.take(), ",\n");
}

#[test]
fn msgpack_map_key_must_be_string() {
    let mut store = Store::new();
    // fixmap with one pair whose key is an integer
    let r = Dynamic::decode(&mut store, &[0x81, 0x01, 0x02]);
    assert_eq!(r.unwrap_err(), MpError::KeyNotString);
}

#[test]
fn msgpack_bad_utf8_rejected() {
    let mut store = Store::new();
    let r = Dynamic::decode(&mut store, &[0xa2, 0xff, 0xfe]);
    assert_eq!(r.unwrap_err(), MpError::BadUtf8);
}

#[test]
fn key_order_is_sorted_everywhere() {
    let mut store = Store::new();
    let m = Dynamic::map(&mut store);
    m.set_key(&mut store, "zeta", Dynamic::Int(1)).unwrap();
    m.set_key(&mut store, "alpha", Dynamic::Int(2)).unwrap();
    m.set_key(&mut store, "mid", Dynamic::Int(3)).unwrap();
    let text = js(&store, &m);
    assert_eq!(text, "{\"alpha\": 2,\n\"mid\": 3,\n\"zeta\": 1}");
    let bytes = enc(&store, &m);
    // fixmap of three, first key "alpha"
    assert_eq!(bytes[0], 0x83);
    assert_eq!(&bytes[1..7], &[0xa5, 0x61, 0x6c, 0x70, 0x68, 0x61]);
}
