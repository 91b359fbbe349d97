use open_project::entry::Entry;

fn bare(path: &str) -> Entry {
    Entry::bare(path.as_bytes().to_vec())
}

fn laid_out(path: &str, layout: &str) -> Entry {
    Entry::with_layout(path.as_bytes().to_vec(), layout.to_string()).unwrap()
}

#[test]
fn with_path_keeps_the_layout() {
    let entry = Entry::WithLayout { path: b"/srv/*".to_vec(), layout: String::from("dev") };
    let moved = entry.with_path(b"/srv/app".to_vec());
    match moved {
        Entry::WithLayout { path, layout } => {
            assert_eq!(path, b"/srv/app".to_vec());
            assert_eq!(layout, "dev");
        }
        Entry::Bare { .. } => panic!("the layout was lost"),
    }
}

#[test]
fn with_path_keeps_a_bare_entry_bare() {
    let moved = bare("/srv/*").with_path(b"/srv/app".to_vec());
    match moved {
        Entry::Bare { path } => assert_eq!(path, b"/srv/app".to_vec()),
        Entry::WithLayout { .. } => panic!("a layout appeared"),
    }
}

#[test]
fn with_path_does_not_touch_the_entry_it_was_copied_from() {
    let stored = laid_out("/srv/*", "dev");
    let moved = stored.clone().with_path(b"/srv/app".to_vec());
    assert_eq!(stored.path_of(), &b"/srv/*".to_vec());
    assert_eq!(stored.layout_of(), Some(&"dev".to_string()));
    assert_eq!(moved.path_of(), &b"/srv/app".to_vec());
    assert_eq!(moved.layout_of(), Some(&"dev".to_string()));
}

#[test]
fn path_of_reads_both_variants() {
    assert_eq!(bare("/a").path_of(), &b"/a".to_vec());
    assert_eq!(laid_out("/b", "x").path_of(), &b"/b".to_vec());
}

#[test]
fn layout_of_reads_both_variants() {
    assert_eq!(bare("/a").layout_of(), None);
    assert_eq!(laid_out("/b", "x").layout_of(), Some(&"x".to_string()));
}

#[test]
fn empty_layout_is_refused() {
    assert!(Entry::with_layout(b"/a".to_vec(), String::new()).is_none());
    assert!(Entry::with_layout(b"/a".to_vec(), " ".to_string()).is_some());
}

#[test]
fn well_formedness_is_decidable() {
    assert!(bare("").is_well_formed());
    assert!(laid_out("/a", "dev").is_well_formed());
    assert!(!Entry::WithLayout { path: b"/a".to_vec(), layout: String::new() }.is_well_formed());
}

#[test]
fn display_quotes_the_path() {
    assert_eq!(bare("/home/me/proj").display_string(), "\"/home/me/proj\"");
    assert_eq!(bare("").display_string(), "\"\"");
}

#[test]
fn display_names_the_layout() {
    assert_eq!(
        laid_out("/home/me/proj", "dev").display_string(),
        "\"/home/me/proj\" with layout 'dev'"
    );
}

#[test]
fn display_escapes_what_would_break_the_quotes() {
    assert_eq!(bare("/a \"b\"").display_string(), "\"/a \\x22b\\x22\"");
    assert_eq!(bare("/a\\b").display_string(), "\"/a\\x5Cb\"");
}

#[test]
fn display_escapes_what_would_not_print() {
    assert_eq!(bare("/a\nb").display_string(), "\"/a\\x0Ab\"");
    assert_eq!(bare("/a\tb\u{7f}").display_string(), "\"/a\\x09b\\x7F\"");
    assert_eq!(bare("\u{0}\u{1f}").display_string(), "\"\\x00\\x1F\"");
}

#[test]
fn display_keeps_printable_text() {
    assert_eq!(bare("/home/zoë/*").display_string(), "\"/home/zoë/*\"");
    assert_eq!(bare("/srv/日本語 ~'x'").display_string(), "\"/srv/日本語 ~'x'\"");
}

#[test]
fn display_escapes_every_byte_outside_ascii_of_what_is_not_text() {
    assert_eq!(
        Entry::bare(b"/tmp/\xff\xfe.txt".to_vec()).display_string(),
        "\"/tmp/\\xFF\\xFE.txt\""
    );
    assert_eq!(
        Entry::bare(b"/zo\xc3\xab/\xff".to_vec()).display_string(),
        "\"/zo\\xC3\\xAB/\\xFF\""
    );
}

#[test]
fn display_tells_paths_apart_that_are_not_text() {
    assert_ne!(
        Entry::bare(b"/tmp/\xff\xfe.txt".to_vec()).display_string(),
        Entry::bare(b"/tmp/\xfe\xff.txt".to_vec()).display_string()
    );
    assert_ne!(
        Entry::bare(b"/tmp/\xff".to_vec()).display_string(),
        bare("/tmp/\\xFF").display_string()
    );
    assert_ne!(
        Entry::bare(b"/tmp/\xc3".to_vec()).display_string(),
        bare("/tmp/\u{fffd}").display_string()
    );
}

#[test]
fn display_tells_entries_apart() {
    let shown = vec![
        bare("/a").display_string(),
        bare("/b").display_string(),
        laid_out("/a", "dev").display_string(),
        laid_out("/a", "ops").display_string(),
        bare("/a\" with layout 'dev'").display_string(),
        laid_out("/a", "dev' with layout 'ops").display_string(),
    ];
    for i in 0..shown.len() {
        for j in 0..i {
            assert_ne!(shown[i], shown[j]);
        }
    }
}
