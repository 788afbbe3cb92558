use byteorder::LittleEndian;
use byteorder::WriteBytesExt;
use herobin::builder::{BuildError, U64ObjectBuilder};
use herobin::decode::{from_bytes, read_value, ReadError};
use herobin::encode::write_internal;
use herobin::entries::is_well_formed;
use herobin::value::Value;
use herobin::wire::{
    END_OBJ, MAGIC, MAX_DEPTH, START_CHAR_SEQ, START_CHAR_SEQ_OBJ, START_F64, START_U64,
    START_U64_OBJ,
};

fn encoded(v: &Value) -> Vec<u8> {
    let mut buf = Vec::new();
    herobin::encode::write(v, &mut buf);
    buf
}

fn header() -> Vec<u8> {
    MAGIC.as_bytes().to_vec()
}

#[test]
fn test_magic_len() {
    assert_eq!(MAGIC.as_bytes().len(), 8);
}

#[test]
fn test_u64_roundtrip() {
    let v = Value::U64(99);

    let mut buf = Vec::new();
    herobin::encode::write(&v, &mut buf);
    println!("{:?}", buf);
    let v2 = from_bytes(&buf).unwrap();
    if let Value::U64(new_value) = v2 {
        assert_eq!(99, new_value);
    } else {
        assert!(false);
    }
}

#[test]
fn test_charseq_roundtrip() {
    let v = Value::CharSeq(String::from("hello world"));

    let mut buf = Vec::new();
    herobin::encode::write(&v, &mut buf);
    let v2 = from_bytes(&buf).unwrap();
    if let Value::CharSeq(new_value) = v2 {
        assert_eq!("hello world", new_value);
    } else {
        assert!(false);
    }
}

#[test]
fn test_u64obj_roundtrip() {
    let v = U64ObjectBuilder::new()
        .set(4, Value::U64(12))
        .start_u64_obj(5)
        .set(1, Value::U64(2))
        .start_u64_obj(2)
        .set(2, Value::U64(3))
        .finish()
        .unwrap()
        .finish()
        .unwrap()
        .value()
        .unwrap();

    let mut buf = Vec::new();
    herobin::encode::write(&v, &mut buf);
    let v2 = from_bytes(&buf).unwrap();

    assert_eq!(v, v2);
}

#[test]
fn test_u64() {
    let v = Value::U64(12);

    let mut buf = Vec::new();
    herobin::encode::write(&v, &mut buf);

    let mut expected: Vec<u8> = Vec::new();
    expected.extend_from_slice(MAGIC.as_bytes());
    expected.push(START_U64);
    expected.write_u64::<LittleEndian>(12).unwrap();

    assert_eq!(buf, expected);
}

#[test]
fn test_u64obj() {
    let v = U64ObjectBuilder::new()
        .set(4, Value::U64(12))
        .set(19, Value::CharSeq(String::from("helloworld")))
        .value()
        .unwrap();

    let mut buf = Vec::new();
    herobin::encode::write(&v, &mut buf);

    let mut expected: Vec<u8> = Vec::new();
    expected.extend_from_slice(MAGIC.as_bytes());
    expected.push(START_U64_OBJ);
    expected.push(START_U64);
    expected.write_u64::<LittleEndian>(4).unwrap();
    expected.push(START_U64);
    expected.write_u64::<LittleEndian>(12).unwrap();
    expected.push(START_U64);
    expected.write_u64::<LittleEndian>(19).unwrap();
    expected.push(START_CHAR_SEQ);
    expected.write_u64::<LittleEndian>(10).unwrap();
    expected.extend_from_slice(b"helloworld");
    expected.push(END_OBJ);
    assert_eq!(buf, expected);
}

#[test]
fn test_charseq() {
    let v = Value::CharSeq(String::from("helloworld"));

    let mut buf = Vec::new();
    herobin::encode::write(&v, &mut buf);

    let mut expected: Vec<u8> = Vec::new();
    expected.extend_from_slice(MAGIC.as_bytes());
    expected.push(START_CHAR_SEQ);
    expected.write_u64::<LittleEndian>(10).unwrap();
    expected.extend_from_slice(b"helloworld");
    assert_eq!(buf, expected);
}

#[test]
fn test_u64obj_nested() {
    let v = U64ObjectBuilder::new()
        .set(4, Value::U64(12))
        .start_u64_obj(5)
        .set(1, Value::U64(2))
        .start_u64_obj(2)
        .set(2, Value::U64(3))
        .finish()
        .unwrap()
        .finish()
        .unwrap()
        .value()
        .unwrap();

    let mut buf = Vec::new();
    herobin::encode::write(&v, &mut buf);
    assert_eq!(from_bytes(&buf), Ok(v));
}

#[test]
fn magic_bytes_are_hero_bin() {
    assert_eq!(MAGIC.as_bytes(), &[0x48, 0x45, 0x52, 0x4F, 0x20, 0x42, 0x49, 0x4E]);
}

#[test]
fn u64_twelve_exact_bytes() {
    let mut expected = header();
    expected.extend_from_slice(&[0x04, 0x0C, 0, 0, 0, 0, 0, 0, 0]);
    assert_eq!(encoded(&Value::U64(12)), expected);
}

#[test]
fn u64_is_little_endian() {
    let mut expected = header();
    expected.extend_from_slice(&[0x04, 0x08, 0x07, 0x06, 0x05, 0x04, 0x03, 0x02, 0x01]);
    assert_eq!(encoded(&Value::U64(0x0102030405060708)), expected);
}

#[test]
fn charseq_helloworld_exact_bytes() {
    let mut expected = header();
    expected.extend_from_slice(&[0x25, 0x0A, 0, 0, 0, 0, 0, 0, 0]);
    expected.extend_from_slice(&[0x68, 0x65, 0x6C, 0x6C, 0x6F, 0x77, 0x6F, 0x72, 0x6C, 0x64]);
    assert_eq!(encoded(&Value::CharSeq(String::from("helloworld"))), expected);
}

#[test]
fn f64_bits_exact_bytes_and_roundtrip() {
    let v = Value::F64(1.5f64.to_bits());
    let mut expected = header();
    expected.push(START_F64);
    expected.extend_from_slice(&1.5f64.to_le_bytes());
    let buf = encoded(&v);
    assert_eq!(buf, expected);
    assert_eq!(from_bytes(&buf), Ok(v));
}

#[test]
fn primitives_roundtrip() {
    for n in [0u64, 1, u64::MAX, 0x9E37_79B9_7F4A_7C15] {
        let v = Value::U64(n);
        assert_eq!(from_bytes(&encoded(&v)), Ok(v));
        let f = Value::F64(n);
        assert_eq!(from_bytes(&encoded(&f)), Ok(f));
    }
    for s in ["", "ascii text", "héllo wörld ✓ 😀"] {
        let v = Value::CharSeq(String::from(s));
        assert_eq!(from_bytes(&encoded(&v)), Ok(v));
    }
}

#[test]
fn multibyte_length_is_byte_length() {
    let buf = encoded(&Value::CharSeq(String::from("é")));
    assert_eq!(buf[8], START_CHAR_SEQ);
    assert_eq!(buf[9], 2);
    assert_eq!(&buf[17..], &[0xC3, 0xA9]);
}

#[test]
fn deep_nesting_roundtrip() {
    let v = U64ObjectBuilder::new()
        .start_u64_obj(1)
        .start_u64_obj(2)
        .start_u64_obj(3)
        .set(4, Value::CharSeq(String::from("leaf")))
        .finish()
        .unwrap()
        .finish()
        .unwrap()
        .finish()
        .unwrap()
        .value()
        .unwrap();
    assert_eq!(from_bytes(&encoded(&v)), Ok(v));
}

#[test]
fn builder_last_write_wins() {
    let v = U64ObjectBuilder::new()
        .set(7, Value::U64(1))
        .set(7, Value::U64(2))
        .value()
        .unwrap();
    assert_eq!(v, Value::U64Object(vec![(7, Value::U64(2))]));
    assert_eq!(from_bytes(&encoded(&v)), Ok(v));
}

#[test]
fn builder_order_does_not_change_bytes() {
    let a = U64ObjectBuilder::new()
        .set(19, Value::U64(1))
        .set(4, Value::U64(2))
        .set(100, Value::U64(3))
        .value()
        .unwrap();
    let b = U64ObjectBuilder::new()
        .set(100, Value::U64(3))
        .set(4, Value::U64(2))
        .set(19, Value::U64(1))
        .value()
        .unwrap();
    assert_eq!(a, b);
    assert_eq!(encoded(&a), encoded(&b));
}

#[test]
fn finish_at_root_fails() {
    assert_eq!(U64ObjectBuilder::new().finish().err(), Some(BuildError::FinishAtRoot));
}

#[test]
fn value_with_open_child_fails() {
    let r = U64ObjectBuilder::new().start_u64_obj(3).value();
    assert_eq!(r, Err(BuildError::UnfinishedChild));
}

#[test]
fn bad_magic_rejected() {
    let mut buf = b"NOT HERO".to_vec();
    buf.extend_from_slice(&[0x04, 0x0C, 0, 0, 0, 0, 0, 0, 0]);
    assert_eq!(from_bytes(&buf), Err(ReadError::BadMagic));
}

#[test]
fn unknown_tag_rejected() {
    let mut buf = header();
    buf.push(0xFF);
    assert_eq!(from_bytes(&buf), Err(ReadError::UnknownTag));
}

#[test]
fn reserved_tag_rejected() {
    let mut buf = header();
    buf.extend_from_slice(&[0x05, 0, 0, 0, 0, 0, 0, 0, 0]);
    assert_eq!(from_bytes(&buf), Err(ReadError::UnknownTag));
}

#[test]
fn short_header_truncated() {
    assert_eq!(from_bytes(b"HERO"), Err(ReadError::Truncated));
}

#[test]
fn truncated_u64_rejected() {
    let mut buf = header();
    buf.extend_from_slice(&[0x04, 0x0C, 0, 0]);
    assert_eq!(from_bytes(&buf), Err(ReadError::Truncated));
}

#[test]
fn truncated_length_prefix_rejected() {
    let mut buf = header();
    buf.extend_from_slice(&[0x25, 0x0A, 0, 0]);
    assert_eq!(from_bytes(&buf), Err(ReadError::Truncated));
}

#[test]
fn length_past_end_rejected() {
    let mut buf = header();
    buf.extend_from_slice(&[0x25, 0x0A, 0, 0, 0, 0, 0, 0, 0, b'a', b'b']);
    assert_eq!(from_bytes(&buf), Err(ReadError::Truncated));
}

#[test]
fn invalid_utf8_rejected() {
    let mut buf = header();
    buf.extend_from_slice(&[0x25, 0x02, 0, 0, 0, 0, 0, 0, 0, 0xC3, 0x28]);
    assert_eq!(from_bytes(&buf), Err(ReadError::BadString));
}

#[test]
fn duplicate_key_rejected() {
    let mut buf = header();
    buf.push(START_U64_OBJ);
    for _ in 0..2 {
        buf.push(START_U64);
        buf.write_u64::<LittleEndian>(4).unwrap();
        buf.push(START_U64);
        buf.write_u64::<LittleEndian>(1).unwrap();
    }
    buf.push(END_OBJ);
    assert_eq!(from_bytes(&buf), Err(ReadError::DuplicateKey));
}

#[test]
fn bad_key_tag_rejected() {
    let mut buf = header();
    buf.push(START_U64_OBJ);
    buf.push(START_CHAR_SEQ);
    assert_eq!(from_bytes(&buf), Err(ReadError::BadKeyTag));
    let mut buf = header();
    buf.push(START_CHAR_SEQ_OBJ);
    buf.push(START_CHAR_SEQ_OBJ);
    assert_eq!(from_bytes(&buf), Err(ReadError::BadKeyTag));
}

#[test]
fn unterminated_object_truncated() {
    let mut buf = header();
    buf.push(START_U64_OBJ);
    assert_eq!(from_bytes(&buf), Err(ReadError::Truncated));
}

#[test]
fn depth_cap_enforced() {
    let mut buf = header();
    for _ in 0..(MAX_DEPTH + 1) {
        buf.push(START_U64_OBJ);
        buf.push(START_U64);
        buf.write_u64::<LittleEndian>(0).unwrap();
    }
    assert_eq!(from_bytes(&buf), Err(ReadError::DepthExceeded));
}

#[test]
fn unsorted_keys_are_normalized() {
    let mut buf = header();
    buf.push(START_U64_OBJ);
    for k in [9u64, 3] {
        buf.push(START_U64);
        buf.write_u64::<LittleEndian>(k).unwrap();
        buf.push(START_U64);
        buf.write_u64::<LittleEndian>(k * 10).unwrap();
    }
    buf.push(END_OBJ);
    let v = from_bytes(&buf).unwrap();
    assert_eq!(v, Value::U64Object(vec![(3, Value::U64(30)), (9, Value::U64(90))]));
    let again = encoded(&v);
    assert_ne!(again, buf);
    assert_eq!(from_bytes(&again), Ok(v));
}

#[test]
fn charseq_object_roundtrip_and_order() {
    let mut buf = header();
    buf.push(START_CHAR_SEQ_OBJ);
    for (k, n) in [("b", 2u64), ("ab", 1), ("a", 0)] {
        buf.push(START_CHAR_SEQ);
        buf.write_u64::<LittleEndian>(k.len() as u64).unwrap();
        buf.extend_from_slice(k.as_bytes());
        buf.push(START_U64);
        buf.write_u64::<LittleEndian>(n).unwrap();
    }
    buf.push(END_OBJ);
    let v = from_bytes(&buf).unwrap();
    assert_eq!(
        v,
        Value::CharSeqObject(vec![
            (String::from("a"), Value::U64(0)),
            (String::from("ab"), Value::U64(1)),
            (String::from("b"), Value::U64(2)),
        ])
    );
    assert_eq!(from_bytes(&encoded(&v)), Ok(v));
}

#[test]
fn encode_is_idempotent_through_decode() {
    let v = U64ObjectBuilder::new()
        .set(2, Value::CharSeq(String::from("two")))
        .set(1, Value::F64(0))
        .value()
        .unwrap();
    let once = encoded(&v);
    let twice = encoded(&from_bytes(&once).unwrap());
    assert_eq!(once, twice);
}

#[test]
fn read_value_reports_end_position() {
    let mut buf = Vec::new();
    write_internal(&Value::U64(5), &mut buf);
    buf.push(0xAA);
    assert_eq!(read_value(&buf, 0, 0), Ok((Value::U64(5), 9)));
}

fn dump_text(v: &Value) -> Vec<String> {
    let mut pieces = Vec::new();
    herobin::dump::dump_pieces(v, &mut pieces);
    pieces
        .into_iter()
        .map(|p| match p {
            herobin::dump::DumpPiece::Text(t) => t,
            herobin::dump::DumpPiece::F64Bits(b) => format!("<{}>", b),
        })
        .collect()
}

#[test]
fn decimal_rendering() {
    assert_eq!(herobin::dump::decimal_string(0), "0");
    assert_eq!(herobin::dump::decimal_string(1203), "1203");
    assert_eq!(herobin::dump::decimal_string(u64::MAX), "18446744073709551615");
}

#[test]
fn dump_primitives() {
    assert_eq!(dump_text(&Value::U64(42)).concat(), "42");
    assert_eq!(dump_text(&Value::CharSeq(String::from("hi"))).concat(), "hi");
    assert_eq!(dump_text(&Value::F64(7)).concat(), "<7>");
}

#[test]
fn dump_nested_layout() {
    let v = U64ObjectBuilder::new()
        .set(4, Value::U64(12))
        .start_u64_obj(5)
        .set(1, Value::CharSeq(String::from("x")))
        .finish()
        .unwrap()
        .value()
        .unwrap();
    assert_eq!(dump_text(&v).concat(), "{\n    4:12\n    5:    {\n        1:x\n    }\n\n}\n");
    let t = Value::CharSeqObject(vec![(String::from("k"), Value::U64(1))]);
    assert_eq!(dump_text(&t).concat(), "{\n    \"k\":1\n}\n");
}

#[test]
fn pad_appends_spaces() {
    let mut s = String::from("a");
    herobin::dump::pad(&mut s, 3);
    assert_eq!(s, "a   ");
}

#[test]
fn well_formedness_check() {
    assert!(is_well_formed(&Value::U64Object(vec![(1, Value::U64(0)), (2, Value::U64(0))])));
    assert!(!is_well_formed(&Value::U64Object(vec![(2, Value::U64(0)), (1, Value::U64(0))])));
    assert!(!is_well_formed(&Value::U64Object(vec![(1, Value::U64(0)), (1, Value::U64(1))])));
    let inner_bad = Value::CharSeqObject(vec![
        (String::from("b"), Value::U64(0)),
        (String::from("a"), Value::U64(0)),
    ]);
    assert!(!is_well_formed(&Value::U64Object(vec![(1, inner_bad)])));
    assert!(is_well_formed(&Value::CharSeqObject(vec![
        (String::from("a"), Value::U64(0)),
        (String::from("ab"), Value::U64(0)),
    ])));
}

#[test]
fn every_prefix_is_truncated() {
    let v = U64ObjectBuilder::new()
        .set(4, Value::U64(12))
        .set(19, Value::CharSeq(String::from("héllo")))
        .start_u64_obj(5)
        .set(1, Value::F64(3))
        .finish()
        .unwrap()
        .value()
        .unwrap();
    let buf = encoded(&v);
    for n in 0..buf.len() {
        assert_eq!(from_bytes(&buf[..n]), Err(ReadError::Truncated), "prefix {}", n);
    }
}

#[test]
fn duplicate_text_key_rejected() {
    let mut buf = header();
    buf.push(START_CHAR_SEQ_OBJ);
    for n in [1u64, 2] {
        buf.push(START_CHAR_SEQ);
        buf.write_u64::<LittleEndian>(1).unwrap();
        buf.push(b'k');
        buf.push(START_U64);
        buf.write_u64::<LittleEndian>(n).unwrap();
    }
    buf.push(END_OBJ);
    assert_eq!(from_bytes(&buf), Err(ReadError::DuplicateKey));
}
