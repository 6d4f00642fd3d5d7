use attribution_generator::catalog::{attribution_name, catalog_from_files, is_attribution_file};

fn file(name: &str, content: &str) -> (String, String) {
    (name.to_string(), content.to_string())
}

fn entry(name: &str, content: &str) -> (String, String) {
    (name.to_string(), content.to_string())
}

#[test]
fn scan_keeps_only_attribution_files() {
    let files = vec![
        file("a.attribution.txt", "A"),
        file("b.attribution.txt", "B"),
        file("c.attribution.txt", "C"),
        file("readme.md", "R"),
        file("notes.txt", "N"),
    ];
    assert_eq!(catalog_from_files(files).len(), 3);
}

#[test]
fn scan_of_nothing_matching_is_empty() {
    let files = vec![file("x.txt", "1"), file("attribution.txt", "2"), file("y.attribution.txt.bak", "3")];
    assert_eq!(catalog_from_files(files), Vec::<(String, String)>::new());
}

#[test]
fn scan_sorts_by_name() {
    let files = vec![
        file("zlib.attribution.txt", "z"),
        file("Apache.attribution.txt", "ap"),
        file("mit.attribution.txt", "m"),
        file("bsd.attribution.txt", "b"),
    ];
    let catalog = catalog_from_files(files);
    assert_eq!(
        catalog,
        vec![entry("Apache", "ap"), entry("bsd", "b"), entry("mit", "m"), entry("zlib", "z")]
    );
    for pair in catalog.windows(2) {
        assert!(pair[0].0 <= pair[1].0);
    }
}

#[test]
fn scan_orders_like_str_comparison() {
    let files = vec![
        file("ab.attribution.txt", "1"),
        file("a.attribution.txt", "2"),
        file("\u{e9}.attribution.txt", "3"),
        file("z.attribution.txt", "4"),
        file("B.attribution.txt", "5"),
    ];
    let catalog = catalog_from_files(files);
    let names: Vec<&str> = catalog.iter().map(|e| e.0.as_str()).collect();
    assert_eq!(names, vec!["B", "a", "ab", "z", "\u{e9}"]);
}

#[test]
fn scan_breaks_name_ties_by_content() {
    let files = vec![file("x.attribution.txt", "second"), file("x.attribution.txt", "first")];
    assert_eq!(catalog_from_files(files), vec![entry("x", "first"), entry("x", "second")]);
}

#[test]
fn scan_ignores_listing_order() {
    let one = vec![
        file("b.attribution.txt", "B"),
        file("other", "O"),
        file("a.attribution.txt", "A"),
        file("c.attribution.txt", "C"),
    ];
    let two = vec![
        file("c.attribution.txt", "C"),
        file("a.attribution.txt", "A"),
        file("other", "O"),
        file("b.attribution.txt", "B"),
    ];
    let first = catalog_from_files(one.clone());
    assert_eq!(first, catalog_from_files(one));
    assert_eq!(first, catalog_from_files(two));
}

#[test]
fn name_strips_only_the_suffix() {
    assert_eq!(attribution_name("foo.bar.attribution.txt"), Some("foo.bar".to_string()));
    assert_eq!(attribution_name("foo.attribution.txt"), Some("foo".to_string()));
    assert_eq!(attribution_name(".attribution.txt"), Some(String::new()));
    assert_eq!(attribution_name("foo.txt"), None);
    assert_eq!(attribution_name("attribution.txt"), None);
}

#[test]
fn suffix_test_is_exact() {
    assert!(is_attribution_file("serde.attribution.txt"));
    assert!(!is_attribution_file("serde.attribution.TXT"));
    assert!(!is_attribution_file("serde.attribution.txt "));
    assert!(!is_attribution_file(""));
}
