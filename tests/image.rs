use jreflection::{
    check_resource_size, choose_layout, decode_resource, image_class_path, image_lookup, Error,
    JdkLayout,
};

#[test]
fn image_paths_skip_non_classes_and_module_info() {
    assert_eq!(image_class_path(b"class", "java/lang", "Object"), Some("java/lang/Object".to_string()));
    assert_eq!(image_class_path(b"gif", "java/lang", "Object"), None);
    assert_eq!(image_class_path(b"class", "", "module-info"), None);
    assert_eq!(image_class_path(b"class", "p", "module-info"), Some("p/module-info".to_string()));
    assert_eq!(image_class_path(b"class", "", "Top"), Some("Top".to_string()));
}

#[test]
fn image_lookup_splits_on_last_slash() {
    assert_eq!(image_lookup("java/lang/Object"), ("java/lang".to_string(), "java/lang/Object.class".to_string()));
    assert_eq!(image_lookup("Top"), (String::new(), "Top.class".to_string()));
    assert_eq!(image_lookup("a/b/c/D$E"), ("a/b/c".to_string(), "a/b/c/D$E.class".to_string()));
}

#[test]
fn resource_size_bound() {
    assert_eq!(check_resource_size(100_000_000), Ok(100_000_000));
    assert_eq!(check_resource_size(100_000_001), Err(Error::InvalidData));
    assert_eq!(check_resource_size(0), Ok(0));
}

#[test]
fn resource_count_must_match() {
    assert_eq!(decode_resource(3, &[1, 2]).err(), Some(Error::InvalidData));
    assert_eq!(decode_resource(2, &[1, 2]).err(), Some(Error::UnexpectedEof));
}

fn minimal_class(access: u16) -> Vec<u8> {
    let mut b = Vec::new();
    b.extend_from_slice(&0xCAFE_BABEu32.to_be_bytes());
    b.extend_from_slice(&[0, 0, 0, 52, 0, 1]);
    b.extend_from_slice(&access.to_be_bytes());
    b.extend_from_slice(&[0; 12]);
    b
}

#[test]
fn resource_with_matching_count_decodes() {
    let b = minimal_class(0x0001);
    let c = decode_resource(b.len() as u64, &b).unwrap();
    assert!(c.is_public());
    assert!(!decode_resource(b.len() as u64, &minimal_class(0)).unwrap().is_public());
    assert_eq!(decode_resource(b.len() as u64 - 1, &b).err(), Some(Error::InvalidData));
}

#[test]
fn layout_probe_order() {
    assert_eq!(choose_layout(true, true, true, true), JdkLayout::ModuleImage);
    assert_eq!(choose_layout(true, false, true, true), JdkLayout::MissingImageTool);
    assert_eq!(choose_layout(false, false, true, true), JdkLayout::JreRtJar);
    assert_eq!(choose_layout(false, true, false, true), JdkLayout::LibRtJar);
    assert_eq!(choose_layout(false, false, false, false), JdkLayout::Unrecognized);
}
