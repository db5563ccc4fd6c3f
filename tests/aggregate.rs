use jreflection::{fill_span, render_versions, Catalog, Consistency, EquivalenceSpan};

fn mask(bits: &[u32]) -> u64 {
    bits.iter().fold(0u64, |m, b| m | (1u64 << b))
}

#[test]
fn consistency_transitions() {
    let mut c: Consistency<i32> = Consistency::new();
    assert!(matches!(c, Consistency::Unobserved));
    c.merge(3);
    assert!(matches!(c, Consistency::Consistent(3)));
    c.merge(3);
    assert!(matches!(c, Consistency::Consistent(3)));
    c.merge(5);
    assert!(matches!(c, Consistency::Conflicting(3, 5)));
    c.merge(7);
    assert!(matches!(c, Consistency::Conflicting(3, 5)));
    c.merge(3);
    assert!(matches!(c, Consistency::Conflicting(3, 5)));
    assert_eq!(c.into_consistent(), None);
}

#[test]
fn consistency_into_consistent() {
    let mut c: Consistency<bool> = Consistency::default();
    assert_eq!(c.into_consistent(), None);
    c.merge(false);
    assert_eq!(c.into_consistent(), Some(false));
}

#[test]
fn version_ranges_with_max_13() {
    assert_eq!(render_versions(mask(&[8]), 13), "8");
    assert_eq!(render_versions(mask(&[8, 9, 10, 11]), 13), "8-11");
    assert_eq!(render_versions(mask(&[13]), 13), "13+");
    assert_eq!(render_versions(mask(&[8, 9, 10, 11, 12, 13]), 13), "8+");
    assert_eq!(render_versions(0, 13), " ");
    assert_eq!(render_versions(mask(&[7, 9]), 13), "7, 9");
}

#[test]
fn version_ranges_mixed() {
    assert_eq!(render_versions(mask(&[0, 1, 2, 5, 7, 8, 29]), 29), "0-2, 5, 7-8, 29+");
    assert_eq!(render_versions(u64::MAX, 63), "0+");
    assert_eq!(render_versions(mask(&[62, 63]), 13), "62-63");
    assert_eq!(render_versions(mask(&[10, 11, 12]), 8), "10-12");
}

#[test]
fn fixup_fills_declared_span() {
    assert_eq!(fill_span(mask(&[8, 11]), 8, 11), mask(&[8, 9, 10, 11]));
    assert_eq!(fill_span(mask(&[8]), 8, 11), mask(&[8]));
    assert_eq!(fill_span(mask(&[11]), 8, 11), mask(&[11]));
    assert_eq!(fill_span(mask(&[8, 13, 20]), 8, 13), mask(&[8, 9, 10, 11, 12, 13, 20]));
    assert_eq!(fill_span(mask(&[0, 63]), 0, 63), u64::MAX);
}

#[test]
fn catalog_apply_equivalences() {
    let mut cat = Catalog::new(2);
    cat.observe("java/lang/Object", 0, 8, true);
    cat.observe("java/lang/Object", 0, 11, true);
    cat.observe("java/util/List", 0, 8, true);
    cat.observe("java/util/List", 1, 8, true);
    cat.observe("java/util/List", 1, 13, true);
    cat.apply_equivalences(&[
        EquivalenceSpan { family: 0, low: 8, high: 11 },
        EquivalenceSpan { family: 1, low: 8, high: 13 },
    ]);
    let rows = cat.rows(&[13, 13]);
    assert_eq!(rows.len(), 2);
    assert_eq!(rows[0].name, "java/lang/Object");
    assert_eq!(rows[0].cells, vec!["8-11".to_string(), " ".to_string()]);
    assert_eq!(rows[1].name, "java/util/List");
    assert_eq!(rows[1].cells, vec!["8".to_string(), "8+".to_string()]);
}

#[test]
fn catalog_orders_names_and_keeps_conflicts_public() {
    let mut cat = Catalog::new(1);
    cat.observe("b/Z", 0, 1, false);
    cat.observe("a/Y", 0, 2, true);
    cat.observe("b/A", 0, 3, false);
    cat.observe("a/Y", 0, 3, false);
    cat.observe("c", 0, 4, true);
    assert_eq!(cat.len(), 4);
    let rows = cat.rows(&[5]);
    let names: Vec<&str> = rows.iter().map(|r| r.name.as_str()).collect();
    // b/A and b/Z were only ever seen non-public; a/Y conflicts and stays
    assert_eq!(names, vec!["a/Y", "c"]);
    assert_eq!(rows[0].cells, vec!["2-3".to_string()]);
    assert_eq!(rows[1].cells, vec!["4".to_string()]);
    let names: Vec<&str> = cat.entries.iter().map(|e| e.name.as_str()).collect();
    assert_eq!(names, vec!["a/Y", "b/A", "b/Z", "c"]);
    assert!(matches!(cat.entries[0].is_public, Consistency::Conflicting(true, false)));
}
