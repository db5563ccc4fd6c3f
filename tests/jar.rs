use jreflection::{Catalog, Error, Jar};
use std::cell::RefCell;
use std::io::{Cursor, Write};

fn class_bytes(access: u16) -> Vec<u8> {
    let mut b = Vec::new();
    b.extend_from_slice(&0xCAFE_BABEu32.to_be_bytes());
    b.extend_from_slice(&[0, 0, 0, 52]);
    // pool: 1 Utf8 "a/B", 2 Class -> 1
    b.extend_from_slice(&3u16.to_be_bytes());
    b.push(1);
    b.extend_from_slice(&3u16.to_be_bytes());
    b.extend_from_slice(b"a/B");
    b.push(7);
    b.extend_from_slice(&1u16.to_be_bytes());
    b.extend_from_slice(&access.to_be_bytes());
    b.extend_from_slice(&2u16.to_be_bytes());
    b.extend_from_slice(&0u16.to_be_bytes());
    b.extend_from_slice(&[0, 0, 0, 0, 0, 0, 0, 0]);
    b
}

fn archive(entries: &[(&str, Vec<u8>)]) -> Vec<u8> {
    let mut w = zip::ZipWriter::new(Cursor::new(Vec::new()));
    for (name, data) in entries {
        w.start_file(*name, zip::write::SimpleFileOptions::default()).unwrap();
        w.write_all(data).unwrap();
    }
    w.finish().unwrap().into_inner()
}

#[test]
fn jar_enumerates_and_reads_classes() {
    let bytes = archive(&[("a/B.class", class_bytes(0x0021)), ("README", b"hello".to_vec())]);
    let mut jar = Jar::open(bytes).unwrap();
    assert_eq!(jar.classes().unwrap(), vec!["a/B".to_string()]);
    let c = jar.read_class("a/B").unwrap();
    assert!(c.is_public());
    let bytes = archive(&[("a/B.class", class_bytes(0x0020)), ("README", b"hello".to_vec())]);
    let mut jar = Jar::open(bytes).unwrap();
    assert!(!jar.read_class("a/B").unwrap().is_public());
}

#[test]
fn jar_missing_class_is_not_found() {
    let bytes = archive(&[("a/B.class", class_bytes(1))]);
    let mut jar = Jar::open(bytes).unwrap();
    assert_eq!(jar.read_class("a/C").unwrap_err(), Error::NotFound);
    assert_eq!(jar.read_class("README").unwrap_err(), Error::NotFound);
}

#[test]
fn jar_rejects_non_archive() {
    assert_eq!(Jar::open(b"not a zip".to_vec()).err(), Some(Error::Archive));
}

#[test]
fn jar_for_each_class_stops_on_request() {
    let bytes = archive(&[
        ("x/One.class", class_bytes(1)),
        ("x/pic.gif", vec![1, 2]),
        ("x/Two.class", class_bytes(1)),
        ("x/Three.class", class_bytes(1)),
    ]);
    let mut jar = Jar::open(bytes).unwrap();
    let seen = RefCell::new(Vec::new());
    let r = jar.for_each_class(|name| {
        let stop = name == "x/Two";
        seen.borrow_mut().push(name);
        if stop { Err(Error::Cancelled) } else { Ok(()) }
    });
    assert_eq!(r, Err(Error::Cancelled));
    assert_eq!(seen.into_inner(), vec!["x/One".to_string(), "x/Two".to_string()]);
    let all = RefCell::new(Vec::new());
    assert_eq!(jar.for_each_class(|n| { all.borrow_mut().push(n); Ok(()) }), Ok(()));
    assert_eq!(all.into_inner(), vec!["x/One".to_string(), "x/Two".to_string(), "x/Three".to_string()]);
}

#[test]
fn jar_for_each_class_over_class_and_readme() {
    let bytes = archive(&[("a/B.class", class_bytes(0x0021)), ("README", b"hello".to_vec())]);
    let mut jar = Jar::open(bytes).unwrap();
    let seen = RefCell::new(Vec::new());
    assert_eq!(jar.for_each_class(|n| { seen.borrow_mut().push(n); Ok(()) }), Ok(()));
    assert_eq!(seen.into_inner(), vec!["a/B".to_string()]);
}

#[test]
fn jar_class_at_by_index() {
    let bytes = archive(&[("a/B.class", class_bytes(1)), ("README", b"x".to_vec())]);
    let mut jar = Jar::open(bytes).unwrap();
    assert_eq!(jar.entry_count(), 2);
    assert_eq!(jar.class_at(0), Ok(Some("a/B".to_string())));
    assert_eq!(jar.class_at(1), Ok(None));
}

#[test]
fn jar_entry_that_is_not_a_class_file() {
    let bytes = archive(&[("a/B.class", b"garbage!".to_vec())]);
    let mut jar = Jar::open(bytes).unwrap();
    assert_eq!(jar.read_class("a/B").unwrap_err(), Error::Malformed);
    let mut cat = Catalog::new(1);
    cat.observe("z/Kept", 0, 3, true);
    assert_eq!(cat.ingest_jar(&mut jar, 0, 5), Err(Error::Malformed));
    assert_eq!(cat.len(), 1);
    assert_eq!(cat.entries[0].versions, vec![1u64 << 3]);
}

#[test]
fn catalog_ingests_a_jar() {
    let bytes = archive(&[("a/B.class", class_bytes(0x0021)), ("README", b"x".to_vec())]);
    let mut jar = Jar::open(bytes).unwrap();
    let mut cat = Catalog::new(2);
    cat.observe("0/Early", 0, 2, false);
    cat.ingest_jar(&mut jar, 1, 8).unwrap();
    assert_eq!(cat.len(), 2);
    assert_eq!(cat.entries[0].name, "0/Early");
    assert_eq!(cat.entries[0].versions, vec![1u64 << 2, 0]);
    let mut again = Jar::open(archive(&[("a/B.class", class_bytes(0x0020))])).unwrap();
    cat.ingest_jar(&mut again, 1, 9).unwrap();
    assert!(matches!(cat.entries[1].is_public, jreflection::Consistency::Conflicting(true, false)));
    let rows = cat.rows(&[13, 13]);
    assert_eq!(rows.len(), 1);
    assert_eq!(rows[0].name, "a/B");
    assert_eq!(rows[0].cells, vec![" ".to_string(), "8-9".to_string()]);
}
