use std::collections::VecDeque;

use open_project::entry::Entry;
use open_project::expand::{
    absorb_matches, contains_path, generate_expanded_entries, merge_resolved, ExpandError,
    PatternFault, ResolvedEntry,
};

fn bare(path: &str) -> Entry {
    Entry::bare(path.as_bytes().to_vec())
}

fn laid_out(path: &str, layout: &str) -> Entry {
    Entry::with_layout(path.as_bytes().to_vec(), layout.to_string()).unwrap()
}

fn found(paths: &[&str]) -> Vec<Option<Vec<u8>>> {
    paths.iter().map(|path| Some(path.as_bytes().to_vec())).collect()
}

fn resolved(entry: Entry, paths: &[&str]) -> ResolvedEntry {
    ResolvedEntry { entry, found: found(paths) }
}

fn shown(entries: &[Entry]) -> Vec<String> {
    entries.iter().map(|entry| entry.display_string()).collect()
}

fn stored(entries: Vec<Entry>) -> VecDeque<Entry> {
    entries.into_iter().collect()
}

#[test]
fn concrete_existing_paths_expand_to_themselves() {
    let list = vec![
        resolved(bare("/srv/a"), &["/srv/a"]),
        resolved(laid_out("/srv/b", "dev"), &["/srv/b"]),
        resolved(bare("/opt/c"), &["/opt/c"]),
    ];
    assert_eq!(
        shown(&merge_resolved(&list)),
        vec!["\"/srv/a\"", "\"/srv/b\" with layout 'dev'", "\"/opt/c\""]
    );
}

#[test]
fn overlapping_patterns_give_each_path_once_at_the_first_entry() {
    let list = vec![
        resolved(laid_out("/srv/*", "dev"), &["/srv/a", "/srv/b"]),
        resolved(laid_out("/srv/[bc]", "ops"), &["/srv/b", "/srv/c"]),
        resolved(bare("/srv/a"), &["/srv/a"]),
    ];
    assert_eq!(
        shown(&merge_resolved(&list)),
        vec![
            "\"/srv/a\" with layout 'dev'",
            "\"/srv/b\" with layout 'dev'",
            "\"/srv/c\" with layout 'ops'",
        ]
    );
}

#[test]
fn a_path_matched_twice_by_one_pattern_is_kept_once() {
    let list = vec![resolved(bare("/srv/*"), &["/srv/a", "/srv/b", "/srv/a"])];
    assert_eq!(shown(&merge_resolved(&list)), vec!["\"/srv/a\"", "\"/srv/b\""]);
}

#[test]
fn entry_without_matches_contributes_nothing() {
    let with = vec![
        resolved(bare("/srv/a"), &["/srv/a"]),
        resolved(laid_out("/gone/*", "dev"), &[]),
        resolved(bare("/srv/b"), &["/srv/b"]),
    ];
    let without = vec![resolved(bare("/srv/a"), &["/srv/a"]), resolved(bare("/srv/b"), &["/srv/b"])];
    assert_eq!(shown(&merge_resolved(&with)), shown(&merge_resolved(&without)));
    assert_eq!(shown(&merge_resolved(&with)), vec!["\"/srv/a\"", "\"/srv/b\""]);
    assert!(merge_resolved(&vec![resolved(bare("/gone"), &[])]).is_empty());
}

#[test]
fn matches_that_failed_are_skipped() {
    let list = vec![ResolvedEntry {
        entry: bare("/srv/*"),
        found: vec![None, Some(b"/srv/a".to_vec()), None, Some(b"/srv/b".to_vec())],
    }];
    assert_eq!(shown(&merge_resolved(&list)), vec!["\"/srv/a\"", "\"/srv/b\""]);
}

#[test]
fn nothing_expands_to_nothing() {
    assert!(merge_resolved(&vec![]).is_empty());
}

#[test]
fn absorbing_keeps_what_was_there() {
    let mut out = vec![bare("/srv/a"), laid_out("/srv/b", "dev")];
    absorb_matches(&mut out, &laid_out("/srv/*", "ops"), &found(&["/srv/b", "/srv/c"]));
    assert_eq!(
        shown(&out),
        vec!["\"/srv/a\"", "\"/srv/b\" with layout 'dev'", "\"/srv/c\" with layout 'ops'"]
    );
}

#[test]
fn paths_are_compared_byte_for_byte() {
    let out = vec![bare("/srv/a"), Entry::bare(b"/srv/\xff".to_vec())];
    assert!(contains_path(&out, &b"/srv/a".to_vec()));
    assert!(contains_path(&out, &b"/srv/\xff".to_vec()));
    assert!(!contains_path(&out, &b"/srv/a/".to_vec()));
    assert!(!contains_path(&out, &b"/srv/A".to_vec()));
    assert!(!contains_path(&vec![], &b"/srv/a".to_vec()));
}

#[test]
fn existing_paths_are_found_on_disk() {
    let out = generate_expanded_entries(stored(vec![bare("/usr"), laid_out("/etc", "dev")])).unwrap();
    assert_eq!(shown(&out), vec!["\"/usr\"", "\"/etc\" with layout 'dev'"]);
}

#[test]
fn expanding_an_expansion_changes_nothing() {
    let once = generate_expanded_entries(stored(vec![laid_out("/us[r]", "dev"), bare("/e?c")])).unwrap();
    assert_eq!(shown(&once), vec!["\"/usr\" with layout 'dev'", "\"/etc\""]);
    let twice = generate_expanded_entries(stored(once.clone())).unwrap();
    assert_eq!(shown(&twice), shown(&once));
}

#[test]
fn a_path_on_disk_is_listed_once_at_the_first_entry() {
    let out = generate_expanded_entries(stored(vec![
        laid_out("/us[r]", "dev"),
        bare("/usr"),
        laid_out("/usr", "ops"),
        bare("/etc"),
    ]))
    .unwrap();
    assert_eq!(shown(&out), vec!["\"/usr\" with layout 'dev'", "\"/etc\""]);
}

#[test]
fn wildcard_matches_come_in_alphabetical_order() {
    let out = generate_expanded_entries(stored(vec![bare("/usr"), bare("/*")])).unwrap();
    let paths: Vec<Vec<u8>> = out.iter().map(|entry| entry.path_of().clone()).collect();
    assert_eq!(paths[0], b"/usr".to_vec());
    assert!(paths.contains(&b"/etc".to_vec()));
    let rest = &paths[1..];
    assert!(!rest.contains(&b"/usr".to_vec()));
    let mut sorted = rest.to_vec();
    sorted.sort();
    assert_eq!(rest, &sorted[..]);
}

#[test]
fn missing_path_is_dropped_without_an_error() {
    let out = generate_expanded_entries(stored(vec![
        bare("/no/such/directory/anywhere"),
        bare("/usr"),
        laid_out("/no/such/*", "dev"),
    ]))
    .unwrap();
    assert_eq!(shown(&out), vec!["\"/usr\""]);
    assert_eq!(generate_expanded_entries(stored(vec![bare("/no/such/directory/anywhere")])), Ok(vec![]));
}

#[test]
fn empty_list_expands_to_nothing() {
    assert_eq!(generate_expanded_entries(VecDeque::new()), Ok(vec![]));
}

#[test]
fn bad_pattern_fails_the_expansion() {
    assert_eq!(
        generate_expanded_entries(stored(vec![bare("/usr"), bare("/usr/[")])),
        Err(ExpandError::Pattern {
            index: 1,
            pattern: "/usr/[".to_string(),
            fault: PatternFault { pos: 5, msg: "invalid range pattern".to_string() },
        })
    );
    assert_eq!(
        generate_expanded_entries(stored(vec![bare("/usr/***")])),
        Err(ExpandError::Pattern {
            index: 0,
            pattern: "/usr/***".to_string(),
            fault: PatternFault {
                pos: 7,
                msg: "wildcards are either regular `*` or recursive `**`".to_string(),
            },
        })
    );
}

#[test]
fn path_that_is_not_text_fails_the_expansion() {
    assert_eq!(
        generate_expanded_entries(stored(vec![bare("/usr"), Entry::bare(b"/usr/\xff".to_vec())])),
        Err(ExpandError::Encoding { index: 1, path: b"/usr/\xff".to_vec() })
    );
}

#[test]
fn the_first_faulty_entry_is_reported() {
    assert_eq!(
        generate_expanded_entries(stored(vec![
            bare("/usr"),
            Entry::bare(b"\xc3".to_vec()),
            bare("/usr/["),
        ])),
        Err(ExpandError::Encoding { index: 1, path: b"\xc3".to_vec() })
    );
    assert_eq!(
        generate_expanded_entries(stored(vec![bare("["), Entry::bare(b"\xc3".to_vec())])),
        Err(ExpandError::Pattern {
            index: 0,
            pattern: "[".to_string(),
            fault: PatternFault { pos: 0, msg: "invalid range pattern".to_string() },
        })
    );
}
