//! Edits of the stored list, and the way back from what a picker shows to
//! the entry that it stands for.
//!
//! The stored list is ordered, and its order is the user's: an edit removes
//! entries and leaves the others where they are.

use std::collections::VecDeque;
use vstd::prelude::*;
use crate::entry::{entries_view, Entry, EntryView};

verus! {

/// `entries` without those that stand at `path`.
pub open spec fn without_path(entries: Seq<EntryView>, path: Seq<u8>) -> Seq<EntryView>
    decreases entries.len(),
{
    if entries.len() == 0 {
        Seq::empty()
    } else if entries.last().path == path {
        without_path(entries.drop_last(), path)
    } else {
        without_path(entries.drop_last(), path).push(entries.last())
    }
}

/// `entries` without those whose position is among `picked`.
pub open spec fn without_positions(entries: Seq<EntryView>, picked: Seq<usize>) -> Seq<EntryView>
    decreases entries.len(),
{
    if entries.len() == 0 {
        Seq::empty()
    } else if picked.contains((entries.len() - 1) as usize) {
        without_positions(entries.drop_last(), picked)
    } else {
        without_positions(entries.drop_last(), picked).push(entries.last())
    }
}

/// Removing by path leaves no entry at the path, and keeps every other
/// entry, in the order in which they stood.
pub proof fn lemma_without_path(entries: Seq<EntryView>, path: Seq<u8>)
    ensures
        forall|i: int|
            0 <= i < without_path(entries, path).len() ==> (#[trigger] without_path(
                entries,
                path,
            )[i]).path != path,
        without_path(entries, path).len() <= entries.len(),
        (forall|i: int| 0 <= i < entries.len() ==> (#[trigger] entries[i]).path != path)
            ==> without_path(entries, path) == entries,
    decreases entries.len(),
{
    if entries.len() > 0 {
        lemma_without_path(entries.drop_last(), path);
        if forall|i: int| 0 <= i < entries.len() ==> (#[trigger] entries[i]).path != path {
            assert forall|i: int| 0 <= i < entries.drop_last().len() implies (
            #[trigger] entries.drop_last()[i]).path != path by {
                assert(entries[i].path != path);
            }
            assert(entries.last() == entries[entries.len() - 1]);
            assert(entries.drop_last().push(entries.last()) =~= entries);
        }
    } else {
        assert(without_path(entries, path) =~= entries);
    }
}

/// Whether `position` is among `picked`.
fn is_picked(picked: &Vec<usize>, position: usize) -> (found: bool)
    ensures
        found == picked@.contains(position),
{
    let mut i: usize = 0;
    while i < picked.len()
        invariant
            i <= picked@.len(),
            forall|k: int| 0 <= k < i ==> picked@[k] != position,
        decreases picked@.len() - i,
    {
        if picked[i] == position {
            return true;
        }
        i += 1;
    }
    false
}

/// One step through a list from the front: with `done` entries taken off,
/// the front of what is left is the entry at `done`, and without it what is
/// left is the list from `done + 1` on.
proof fn lemma_front_taken(all: Seq<EntryView>, left: Seq<Entry>, rest: Seq<Entry>, done: int)
    requires
        0 <= done < all.len(),
        entries_view(left) == all.skip(done),
        rest == left.subrange(1, left.len() as int),
    ensures
        left.len() > 0,
        left[0]@ == all[done],
        entries_view(rest) == all.skip(done + 1),
        all.take(done + 1).drop_last() == all.take(done),
        all.take(done + 1).last() == all[done],
{
    assert(entries_view(left).len() == left.len());
    assert(entries_view(left)[0] == all.skip(done)[0]);
    assert(entries_view(rest) =~= all.skip(done + 1)) by {
        assert forall|i: int| 0 <= i < rest.len() implies entries_view(rest)[i] == all.skip(
            done + 1,
        )[i] by {
            assert(rest[i] == left[i + 1]);
            assert(entries_view(left)[i + 1] == all.skip(done)[i + 1]);
        }
    }
    assert(all.take(done + 1).drop_last() =~= all.take(done));
}

/// Removes from the stored list every entry that stands at `path`. Paths are
/// compared byte for byte.
pub fn remove_path(entries: &mut VecDeque<Entry>, path: &Vec<u8>)
    ensures
        entries_view(final(entries)@) == without_path(entries_view(old(entries)@), path@),
{
    let ghost all = entries_view(entries@);
    let mut kept: VecDeque<Entry> = VecDeque::new();
    let mut done: usize = 0;
    let total = entries.len();
    assert(all.take(0) =~= Seq::empty());
    assert(entries_view(kept@) =~= Seq::empty());
    assert(entries_view(entries@) =~= all.skip(0));
    while done < total
        invariant
            done <= total == all.len(),
            entries_view(entries@) == all.skip(done as int),
            entries_view(kept@) == without_path(all.take(done as int), path@),
        decreases total - done,
    {
        let ghost before = entries_view(kept@);
        let ghost left = entries@;
        let front = entries.pop_front();
        proof {
            lemma_front_taken(all, left, left.subrange(1, left.len() as int), done as int);
        }
        if let Some(entry) = front {
            let same = entry.path_of() == path;
            proof {
                if same {
                    assert(entry@.path =~= path@);
                }
            }
            if !same {
                kept.push_back(entry);
                assert(entries_view(kept@) =~= before.push(entry@));
            }
        }
        done += 1;
    }
    assert(all.take(total as int) =~= all);
    *entries = kept;
}

/// Removes from the stored list the entries at the positions `picked`.
/// Positions behind the end of the list pick nothing, and a position that
/// is picked twice is picked.
pub fn remove_positions(entries: &mut VecDeque<Entry>, picked: &Vec<usize>)
    ensures
        entries_view(final(entries)@) == without_positions(entries_view(old(entries)@), picked@),
{
    let ghost all = entries_view(entries@);
    let mut kept: VecDeque<Entry> = VecDeque::new();
    let mut done: usize = 0;
    let total = entries.len();
    assert(all.take(0) =~= Seq::empty());
    assert(entries_view(kept@) =~= Seq::empty());
    assert(entries_view(entries@) =~= all.skip(0));
    while done < total
        invariant
            done <= total == all.len(),
            entries_view(entries@) == all.skip(done as int),
            entries_view(kept@) == without_positions(all.take(done as int), picked@),
        decreases total - done,
    {
        let ghost before = entries_view(kept@);
        let ghost left = entries@;
        let front = entries.pop_front();
        proof {
            lemma_front_taken(all, left, left.subrange(1, left.len() as int), done as int);
        }
        if let Some(entry) = front {
            if !is_picked(picked, done) {
                kept.push_back(entry);
                assert(entries_view(kept@) =~= before.push(entry@));
            }
        }
        done += 1;
    }
    assert(all.take(total as int) =~= all);
    *entries = kept;
}

/// Among entries that all differ, a shown text leads back to one entry
/// only: the entry that is shown so.
pub proof fn lemma_shown_text_leads_back(entries: Seq<EntryView>, i: int, j: int)
    requires
        0 <= i < entries.len(),
        0 <= j < entries.len(),
        entries[i].display_text() == entries[j].display_text(),
    ensures
        entries[i] == entries[j],
{
    if entries[i] != entries[j] {
        crate::entry::lemma_display_text_is_unique(entries[i], entries[j]);
    }
}

/// The position of the entry that the text `shown` stands for: the last of
/// `entries` that is displayed as `shown`, if there is one. Every entry
/// that is displayed so is equal to the one found, path and layout.
pub fn find_displayed(entries: &Vec<Entry>, shown: &str) -> (found: Option<usize>)
    ensures
        match found {
            Some(position) => {
                &&& position < entries@.len()
                &&& entries@[position as int]@.display_text() == shown@
                &&& forall|i: int|
                    position < i < entries@.len() ==> (#[trigger] entries@[i])@.display_text()
                        != shown@
                &&& forall|i: int|
                    0 <= i < entries@.len() && (#[trigger] entries@[i])@.display_text() == shown@
                        ==> entries@[i]@ == entries@[position as int]@
            },
            None => forall|i: int|
                0 <= i < entries@.len() ==> (#[trigger] entries@[i])@.display_text() != shown@,
        },
{
    let wanted = shown.to_owned();
    let mut i = entries.len();
    while i > 0
        invariant
            i <= entries@.len(),
            wanted@ == shown@,
            forall|k: int|
                i <= k < entries@.len() ==> (#[trigger] entries@[k])@.display_text() != shown@,
        decreases i,
    {
        i -= 1;
        if entries[i].display_string() == wanted {
            proof {
                assert forall|k: int|
                    0 <= k < entries@.len() && (#[trigger] entries@[k])@.display_text()
                        == shown@ implies entries@[k]@ == entries@[i as int]@ by {
                    lemma_shown_text_leads_back(entries_view(entries@), k, i as int);
                }
            }
            return Some(i);
        }
    }
    None
}

} // verus!
