use attribution_generator::engine::App;

fn file(name: &str, content: &str) -> (String, String) {
    (name.to_string(), content.to_string())
}

fn abc() -> Vec<(String, String)> {
    vec![
        file("C.attribution.txt", "z"),
        file("A.attribution.txt", "x"),
        file("B.attribution.txt", "y"),
    ]
}

#[test]
fn start_without_directory() {
    let app = App::new(None, None);
    assert_eq!(app.location(), &None);
    assert_eq!(app.preference(), &None);
    assert!(app.catalog().is_empty());
    assert_eq!(app.attribution_text(), "");
}

#[test]
fn start_with_remembered_directory() {
    let app = App::new(Some("/data".to_string()), Some(abc()));
    assert_eq!(app.location(), &Some("/data".to_string()));
    assert_eq!(app.catalog().len(), 3);
    assert_eq!(app.catalog()[0], ("A".to_string(), "x".to_string()));
    assert!(!app.is_ticked("A"));
}

#[test]
fn start_with_unreadable_directory() {
    let app = App::new(Some("/gone".to_string()), None);
    assert_eq!(app.location(), &Some("/gone".to_string()));
    assert!(app.catalog().is_empty());
}

#[test]
fn nothing_ticked_renders_empty() {
    let app = App::new(Some("/data".to_string()), Some(abc()));
    assert_eq!(app.attribution_text(), "");
}

#[test]
fn ticked_entries_render_in_catalog_order() {
    let mut app = App::new(Some("/data".to_string()), Some(abc()));
    assert!(app.toggle(2, true));
    assert!(app.toggle(0, true));
    assert!(app.is_ticked("A"));
    assert!(app.is_ticked("C"));
    assert!(!app.is_ticked("B"));
    assert_eq!(app.attribution_text(), "x\n\nz");
}

#[test]
fn single_ticked_entry_has_no_separator() {
    let mut app = App::new(None, Some(abc()));
    assert!(app.toggle(1, true));
    assert_eq!(app.attribution_text(), "y");
}

#[test]
fn empty_contents_still_get_separators() {
    let files = vec![file("a.attribution.txt", ""), file("b.attribution.txt", "")];
    let mut app = App::new(None, Some(files));
    app.toggle(0, true);
    app.toggle(1, true);
    assert_eq!(app.attribution_text(), "\n\n");
}

#[test]
fn tick_then_untick_restores_text() {
    let mut app = App::new(None, Some(abc()));
    app.toggle(0, true);
    let before = app.attribution_text();
    assert!(app.toggle(1, true));
    assert_eq!(app.attribution_text(), "x\n\ny");
    assert!(app.toggle(1, false));
    assert_eq!(app.attribution_text(), before);
    assert!(!app.is_ticked("B"));
}

#[test]
fn ticking_twice_keeps_one_tick() {
    let mut app = App::new(None, Some(abc()));
    app.toggle(0, true);
    app.toggle(0, true);
    app.toggle(0, false);
    assert!(!app.is_ticked("A"));
    assert_eq!(app.attribution_text(), "");
}

#[test]
fn stale_index_is_ignored() {
    let mut app = App::new(None, Some(abc()));
    app.toggle(0, true);
    assert!(!app.toggle(3, true));
    assert!(!app.toggle(usize::MAX, false));
    assert_eq!(app.attribution_text(), "x");
    assert_eq!(app.catalog().len(), 3);
}

#[test]
fn failed_directory_change_keeps_state() {
    let mut app = App::new(Some("/data".to_string()), Some(abc()));
    app.toggle(1, true);
    let saved = app.set_directory("/nonexistent".to_string(), None);
    assert_eq!(saved, None);
    assert_eq!(app.location(), &Some("/nonexistent".to_string()));
    assert_eq!(app.preference(), &Some("/data".to_string()));
    assert_eq!(app.catalog().len(), 3);
    assert!(app.is_ticked("B"));
    assert_eq!(app.attribution_text(), "y");
}

#[test]
fn successful_directory_change_replaces_catalog() {
    let mut app = App::new(None, Some(abc()));
    app.toggle(0, true);
    let saved = app.set_directory("/other".to_string(), Some(vec![file("D.attribution.txt", "w")]));
    assert_eq!(saved, Some("/other".to_string()));
    assert_eq!(app.preference(), &Some("/other".to_string()));
    assert_eq!(app.catalog(), &vec![("D".to_string(), "w".to_string())]);
    // A ticked name outside the new catalog stays ticked but renders nothing.
    assert!(app.is_ticked("A"));
    assert_eq!(app.attribution_text(), "");
    app.set_directory("/data".to_string(), Some(abc()));
    assert_eq!(app.attribution_text(), "x");
}

#[test]
fn restart_returns_to_last_scanned_directory() {
    let mut app = App::new(None, None);
    app.set_directory("/good".to_string(), Some(abc()));
    app.set_directory("/bad".to_string(), None);
    let remembered = app.preference().clone();
    assert_eq!(remembered, Some("/good".to_string()));
    let restarted = App::new(remembered, Some(abc()));
    assert_eq!(restarted.location(), &Some("/good".to_string()));
    assert_eq!(restarted.attribution_text(), "");
}
