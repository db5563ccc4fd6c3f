use jreflection::{Attribute, Class, Constant, Constants, Error, FieldConstant};
use jreflection::ConstantKind;

fn u2(out: &mut Vec<u8>, v: u16) {
    out.extend_from_slice(&v.to_be_bytes());
}

fn u4(out: &mut Vec<u8>, v: u32) {
    out.extend_from_slice(&v.to_be_bytes());
}

fn utf8(out: &mut Vec<u8>, s: &str) {
    out.push(1);
    u2(out, s.len() as u16);
    out.extend_from_slice(s.as_bytes());
}

/// Pool: 1 "ConstantValue", 2 "Signature", 3 "Deprecated", 4 "Code",
/// 5 "Whatever", 6 Integer 42, 7-8 Long, 9 "Ljava/lang/Object;",
/// 10 String -> 9, 11 Class -> 12, 12 "a/B", 13-14 Double, 15 Float.
fn pool() -> Vec<u8> {
    let mut b = Vec::new();
    u2(&mut b, 16);
    utf8(&mut b, "ConstantValue");
    utf8(&mut b, "Signature");
    utf8(&mut b, "Deprecated");
    utf8(&mut b, "Code");
    utf8(&mut b, "Whatever");
    b.push(3);
    u4(&mut b, 42);
    b.push(5);
    b.extend_from_slice(&(-7i64).to_be_bytes());
    utf8(&mut b, "Ljava/lang/Object;");
    b.push(8);
    u2(&mut b, 9);
    b.push(7);
    u2(&mut b, 12);
    utf8(&mut b, "a/B");
    b.push(6);
    b.extend_from_slice(&0x4009_21FB_5444_2D18u64.to_be_bytes());
    b.push(4);
    u4(&mut b, 0x3FC0_0000);
    b
}

fn attr(out: &mut Vec<u8>, name: u16, payload: &[u8]) {
    u2(out, name);
    u4(out, payload.len() as u32);
    out.extend_from_slice(payload);
}

fn class_bytes(access: u16) -> Vec<u8> {
    let mut b = Vec::new();
    u4(&mut b, 0xCAFE_BABE);
    u2(&mut b, 0);
    u2(&mut b, 52);
    b.extend_from_slice(&pool());
    u2(&mut b, access);
    u2(&mut b, 11);
    u2(&mut b, 0);
    u2(&mut b, 1);
    u2(&mut b, 11);
    // one field: Code (opaque), Whatever (unknown), ConstantValue -> 6
    u2(&mut b, 1);
    u2(&mut b, 0x0019);
    u2(&mut b, 5);
    u2(&mut b, 5);
    u2(&mut b, 3);
    attr(&mut b, 4, &[1, 2, 3, 4, 5]);
    attr(&mut b, 5, &[0xFF, 0xFE, 0xFD]);
    attr(&mut b, 1, &[0, 6]);
    // one method: Deprecated
    u2(&mut b, 1);
    u2(&mut b, 0x0001);
    u2(&mut b, 5);
    u2(&mut b, 5);
    u2(&mut b, 1);
    attr(&mut b, 3, &[]);
    // class: Signature -> 9, Unknown
    u2(&mut b, 2);
    attr(&mut b, 2, &[0, 9]);
    attr(&mut b, 5, &[9, 9]);
    b
}

fn read_pool() -> Constants {
    let b = pool();
    let (c, end) = Constants::read(&b, 0).unwrap();
    assert_eq!(end, b.len());
    c
}

#[test]
fn mixed_attributes_keep_the_stream_aligned() {
    let b = class_bytes(0x0021);
    let c = Class::read(&b).unwrap();
    assert!(c.is_public());
    assert_eq!(c.this_class, 11);
    assert_eq!(c.interfaces, vec![11]);
    assert_eq!(c.fields.len(), 1);
    let f = &c.fields[0];
    assert_eq!(f.attributes.len(), 3);
    assert!(matches!(f.attributes[0], Attribute::Code));
    assert!(matches!(f.attributes[1], Attribute::Unknown));
    assert!(matches!(f.attributes[2], Attribute::ConstantValue(FieldConstant::Integer(42))));
    assert_eq!(c.methods.len(), 1);
    assert!(matches!(c.methods[0].attributes[0], Attribute::Deprecated));
    assert_eq!(c.attributes.len(), 2);
    match &c.attributes[0] {
        Attribute::Signature(s) => assert_eq!(s, "Ljava/lang/Object;"),
        other => panic!("unexpected {:?}", other),
    }
    assert!(matches!(c.attributes[1], Attribute::Unknown));
}

#[test]
fn visibility_follows_access_flags() {
    assert!(Class::read(&class_bytes(0x0001)).unwrap().is_public());
    assert!(!Class::read(&class_bytes(0x0020)).unwrap().is_public());
}

#[test]
fn attribute_read_ends_at_declared_length() {
    let pool = read_pool();
    let mut b = Vec::new();
    attr(&mut b, 5, &[1, 2, 3, 4, 5, 6, 7]);
    attr(&mut b, 4, &[8; 10]);
    let (a, end) = Attribute::read(&b, 0, &pool).unwrap();
    assert!(matches!(a, Attribute::Unknown));
    assert_eq!(end, 13);
    let (a, end) = Attribute::read(&b, end, &pool).unwrap();
    assert!(matches!(a, Attribute::Code));
    assert_eq!(end, b.len());
}

#[test]
fn deprecated_with_payload_is_skipped() {
    let pool = read_pool();
    let mut b = Vec::new();
    attr(&mut b, 3, &[1, 2, 3]);
    let (a, end) = Attribute::read(&b, 0, &pool).unwrap();
    assert!(matches!(a, Attribute::Deprecated));
    assert_eq!(end, 9);
}

#[test]
fn truncated_payload_is_an_error() {
    let pool = read_pool();
    let mut b = Vec::new();
    u2(&mut b, 4);
    u4(&mut b, 10);
    b.extend_from_slice(&[0; 4]);
    assert_eq!(Attribute::read(&b, 0, &pool).unwrap_err(), Error::UnexpectedEof);
}

#[test]
fn out_of_range_indices() {
    let pool = read_pool();
    assert_eq!(pool.get(0).unwrap_err(), Error::OutOfRange { index: 0 });
    assert_eq!(pool.get(16).unwrap_err(), Error::OutOfRange { index: 16 });
    assert_eq!(pool.get(400).unwrap_err(), Error::OutOfRange { index: 400 });
    assert_eq!(pool.get(8).unwrap_err(), Error::OutOfRange { index: 8 });
    assert_eq!(pool.get(14).unwrap_err(), Error::OutOfRange { index: 14 });
    assert_eq!(pool.get_utf8(0).unwrap_err(), Error::OutOfRange { index: 0 });
    assert_eq!(pool.get_utf8(8).unwrap_err(), Error::OutOfRange { index: 8 });
    assert_eq!(pool.get_utf8(17).unwrap_err(), Error::OutOfRange { index: 17 });
    assert!(matches!(pool.get(7), Ok(Constant::Long(-7))));
    assert!(matches!(pool.get(13), Ok(Constant::Double { bits: 0x4009_21FB_5444_2D18 })));
    assert!(matches!(pool.get(15), Ok(Constant::Float { bits: 0x3FC0_0000 })));
}

#[test]
fn get_utf8_requires_utf8_kind() {
    let pool = read_pool();
    assert_eq!(pool.get_utf8(12).unwrap(), "a/B");
    assert_eq!(
        pool.get_utf8(6).unwrap_err(),
        Error::WrongKind { index: 6, found: ConstantKind::Integer }
    );
}

#[test]
fn constant_value_length_must_be_two() {
    let pool = read_pool();
    let mut b = Vec::new();
    attr(&mut b, 1, &[0, 6, 0]);
    assert_eq!(
        Attribute::read(&b, 0, &pool).unwrap_err(),
        Error::StructuralMismatch { declared: 3 }
    );
    let mut b = Vec::new();
    attr(&mut b, 2, &[]);
    assert_eq!(
        Attribute::read(&b, 0, &pool).unwrap_err(),
        Error::StructuralMismatch { declared: 0 }
    );
}

#[test]
fn constant_value_pointing_at_utf8_is_a_type_mismatch() {
    let pool = read_pool();
    let mut b = Vec::new();
    attr(&mut b, 1, &[0, 12]);
    assert_eq!(
        Attribute::read(&b, 0, &pool).unwrap_err(),
        Error::WrongKind { index: 12, found: ConstantKind::Utf8 }
    );
    let mut b = Vec::new();
    attr(&mut b, 1, &[0, 11]);
    assert_eq!(
        Attribute::read(&b, 0, &pool).unwrap_err(),
        Error::WrongKind { index: 11, found: ConstantKind::Class }
    );
}

#[test]
fn constant_value_kinds() {
    let pool = read_pool();
    let mut b = Vec::new();
    attr(&mut b, 1, &[0, 10]);
    attr(&mut b, 1, &[0, 7]);
    attr(&mut b, 1, &[0, 15]);
    let (a, end) = Attribute::read(&b, 0, &pool).unwrap();
    match a {
        Attribute::ConstantValue(FieldConstant::String(Some(s))) => assert_eq!(s, "Ljava/lang/Object;"),
        other => panic!("unexpected {:?}", other),
    }
    let (a, end) = Attribute::read(&b, end, &pool).unwrap();
    assert!(matches!(a, Attribute::ConstantValue(FieldConstant::Long(-7))));
    let (a, _) = Attribute::read(&b, end, &pool).unwrap();
    assert!(matches!(a, Attribute::ConstantValue(FieldConstant::Float { bits: 0x3FC0_0000 })));
}

#[test]
fn modified_utf8_null_and_supplementary() {
    let mut b = Vec::new();
    u2(&mut b, 3);
    // "a\0b" with NUL as C0 80
    b.push(1);
    u2(&mut b, 4);
    b.extend_from_slice(&[0x61, 0xC0, 0x80, 0x62]);
    // U+1F600 as two three-byte surrogate halves
    b.push(1);
    u2(&mut b, 6);
    b.extend_from_slice(&[0xED, 0xA0, 0xBD, 0xED, 0xB8, 0x80]);
    let (pool, _) = Constants::read(&b, 0).unwrap();
    assert_eq!(pool.get_utf8(1).unwrap(), "a\u{0}b");
    assert_eq!(pool.get_utf8(2).unwrap(), "\u{1F600}");
}

#[test]
fn malformed_text_only_fails_strict_lookup() {
    let mut b = Vec::new();
    u2(&mut b, 3);
    // an unpaired high surrogate
    b.push(1);
    u2(&mut b, 3);
    b.extend_from_slice(&[0xED, 0xA0, 0xBD]);
    b.push(8);
    u2(&mut b, 1);
    let (pool, _) = Constants::read(&b, 0).unwrap();
    assert_eq!(pool.get_utf8(1).unwrap_err(), Error::Malformed);
    assert_eq!(pool.get_utf8_possibly_invalid(1).unwrap(), None);
    let mut full = Vec::new();
    u2(&mut full, 4);
    utf8(&mut full, "ConstantValue");
    full.push(1);
    u2(&mut full, 3);
    full.extend_from_slice(&[0xED, 0xA0, 0xBD]);
    full.push(8);
    u2(&mut full, 2);
    let (pool, _) = Constants::read(&full, 0).unwrap();
    let mut at = Vec::new();
    attr(&mut at, 1, &[0, 3]);
    let (v, _) = Attribute::read(&at, 0, &pool).unwrap();
    assert!(matches!(v, Attribute::ConstantValue(FieldConstant::String(None))));
}

#[test]
fn bad_magic_and_short_input() {
    assert_eq!(Class::read(&[0xCA, 0xFE]).unwrap_err(), Error::UnexpectedEof);
    assert_eq!(Class::read(&[0, 0, 0, 0, 0, 0, 0, 0]).unwrap_err(), Error::Malformed);
    let mut b = class_bytes(1);
    b.truncate(b.len() - 1);
    assert_eq!(Class::read(&b).unwrap_err(), Error::UnexpectedEof);
}

#[test]
fn unknown_constant_tag() {
    let b = [0u8, 2, 2, 0, 0];
    assert_eq!(Constants::read(&b, 0).unwrap_err(), Error::Malformed);
}
