use std::collections::VecDeque;

use open_project::entry::Entry;
use open_project::stored::{find_displayed, remove_path, remove_positions};

fn bare(path: &str) -> Entry {
    Entry::bare(path.as_bytes().to_vec())
}

fn laid_out(path: &str, layout: &str) -> Entry {
    Entry::with_layout(path.as_bytes().to_vec(), layout.to_string()).unwrap()
}

fn stored(entries: Vec<Entry>) -> VecDeque<Entry> {
    entries.into_iter().collect()
}

#[test]
fn removing_a_path_removes_every_entry_at_it() {
    let mut list = stored(vec![bare("/a"), laid_out("/b", "dev"), bare("/c"), bare("/b")]);
    remove_path(&mut list, &b"/b".to_vec());
    assert_eq!(list, stored(vec![bare("/a"), bare("/c")]));
}

#[test]
fn removing_a_path_that_is_not_stored_changes_nothing() {
    let mut list = stored(vec![bare("/a"), laid_out("/b", "dev")]);
    remove_path(&mut list, &b"/b/".to_vec());
    assert_eq!(list, stored(vec![bare("/a"), laid_out("/b", "dev")]));
    let mut empty = stored(vec![]);
    remove_path(&mut empty, &b"/a".to_vec());
    assert!(empty.is_empty());
}

#[test]
fn removing_positions_keeps_the_others_in_order() {
    let mut list = stored(vec![bare("/a"), bare("/b"), bare("/c"), bare("/d"), bare("/e")]);
    remove_positions(&mut list, &vec![3, 0, 4]);
    assert_eq!(list, stored(vec![bare("/b"), bare("/c")]));
}

#[test]
fn positions_may_repeat_or_point_behind_the_end() {
    let mut list = stored(vec![bare("/a"), bare("/b"), bare("/c")]);
    remove_positions(&mut list, &vec![1, 1, 7]);
    assert_eq!(list, stored(vec![bare("/a"), bare("/c")]));
    remove_positions(&mut list, &vec![]);
    assert_eq!(list, stored(vec![bare("/a"), bare("/c")]));
    remove_positions(&mut list, &vec![0, 1]);
    assert!(list.is_empty());
}

#[test]
fn a_shown_text_leads_back_to_its_entry() {
    let list = vec![bare("/a"), laid_out("/a", "dev"), bare("/b")];
    assert_eq!(find_displayed(&list, "\"/a\""), Some(0));
    assert_eq!(find_displayed(&list, "\"/a\" with layout 'dev'"), Some(1));
    assert_eq!(find_displayed(&list, "\"/b\""), Some(2));
    for (position, entry) in list.iter().enumerate() {
        assert_eq!(find_displayed(&list, &entry.display_string()), Some(position));
    }
}

#[test]
fn a_text_that_no_entry_shows_leads_nowhere() {
    let list = vec![bare("/a"), laid_out("/a", "dev")];
    assert_eq!(find_displayed(&list, "/a"), None);
    assert_eq!(find_displayed(&list, "\"/a\" with layout 'ops'"), None);
    assert_eq!(find_displayed(&vec![], "\"/a\""), None);
}

#[test]
fn of_entries_shown_alike_the_last_is_found() {
    let list = vec![bare("/a"), bare("/b"), bare("/a")];
    assert_eq!(find_displayed(&list, "\"/a\""), Some(2));
}
