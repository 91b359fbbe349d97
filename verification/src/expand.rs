//! Expansion of stored entries into the list of concrete candidates.
//!
//! Each entry's path is a glob pattern. Expansion replaces every entry by one
//! entry for each path that its pattern matches on disk, in the order of the
//! stored list, and keeps of each concrete path only the first occurrence.

use std::collections::VecDeque;
use vstd::prelude::*;
use vstd::utf8::{decode_utf8, valid_utf8};
use crate::entry::{entries_view, Entry, EntryView};
use crate::text::utf8_text;

verus! {

/// What one pattern matched: the concrete paths in the order in which they
/// were found, with `None` for a match that could not be produced.
pub type Matches = Seq<Option<Seq<u8>>>;

/// The values of the matches of one pattern.
pub open spec fn matches_view(found: Seq<Option<Vec<u8>>>) -> Matches {
    Seq::new(
        found.len(),
        |i: int|
            match found[i] {
                Some(path) => Some(path@),
                None => None,
            },
    )
}

/// Whether one of `out` stands at `path`.
pub open spec fn has_path(out: Seq<EntryView>, path: Seq<u8>) -> bool {
    exists|i: int| 0 <= i < out.len() && (#[trigger] out[i]).path == path
}

/// `out` after the matches of `source` have been taken in: each match, in
/// order, adds `source` at the matched path, unless an entry at that path is
/// there already.
pub open spec fn absorb(out: Seq<EntryView>, source: EntryView, found: Matches) -> Seq<EntryView>
    decreases found.len(),
{
    if found.len() == 0 {
        out
    } else {
        let before = absorb(out, source, found.drop_last());
        match found.last() {
            Some(path) => if has_path(before, path) {
                before
            } else {
                before.push(source.with_path(path))
            },
            None => before,
        }
    }
}

/// An entry together with what its pattern matched.
pub struct Resolved {
    pub source: EntryView,
    pub found: Matches,
}

/// The candidates that a resolved list gives: the matches of all entries
/// taken in one after the other, from the first entry to the last.
pub open spec fn merged(resolved: Seq<Resolved>) -> Seq<EntryView>
    decreases resolved.len(),
{
    if resolved.len() == 0 {
        Seq::empty()
    } else {
        absorb(merged(resolved.drop_last()), resolved.last().source, resolved.last().found)
    }
}

/// Whether no two of `out` stand at the same path.
pub open spec fn distinct_paths(out: Seq<EntryView>) -> bool {
    forall|i: int, j: int|
        0 <= i < j < out.len() ==> (#[trigger] out[i]).path != (#[trigger] out[j]).path
}

/// Whether `path` is among the matches `found`.
pub open spec fn lists_path(found: Matches, path: Seq<u8>) -> bool {
    exists|m: int| 0 <= m < found.len() && #[trigger] found[m] == Some(path)
}

/// Whether `found` holds no path at all: it is empty, or every match in it
/// failed to be read.
pub open spec fn lists_nothing(found: Matches) -> bool {
    forall|m: int| 0 <= m < found.len() ==> #[trigger] found[m] is None
}

/// Whether the entry at `k` is the first of `resolved` whose pattern matched
/// `path`.
pub open spec fn first_source(resolved: Seq<Resolved>, path: Seq<u8>, k: int) -> bool {
    &&& 0 <= k < resolved.len()
    &&& lists_path(resolved[k].found, path)
    &&& forall|j: int| 0 <= j < k ==> !lists_path((#[trigger] resolved[j]).found, path)
}

/// Each entry matched by exactly its own path, as a list of concrete paths
/// that all exist is.
pub open spec fn self_resolved(entries: Seq<EntryView>) -> Seq<Resolved> {
    Seq::new(
        entries.len(),
        |i: int| Resolved { source: entries[i], found: seq![Some(entries[i].path)] },
    )
}

/// Taking in the matches of one entry keeps every candidate that was there
/// in its place, adds only the source at paths that it matched and that were
/// not there, leaves every matched path present, and keeps the paths
/// distinct.
pub proof fn lemma_absorb(out: Seq<EntryView>, source: EntryView, found: Matches)
    ensures
        out.len() <= absorb(out, source, found).len(),
        forall|i: int| 0 <= i < out.len() ==> #[trigger] absorb(out, source, found)[i] == out[i],
        forall|r: int|
            out.len() <= r < absorb(out, source, found).len() ==> {
                let added = #[trigger] absorb(out, source, found)[r];
                &&& lists_path(found, added.path)
                &&& added == source.with_path(added.path)
                &&& !has_path(out, added.path)
            },
        forall|path: Seq<u8>| #[trigger]
            lists_path(found, path) ==> has_path(absorb(out, source, found), path),
        distinct_paths(out) ==> distinct_paths(absorb(out, source, found)),
    decreases found.len(),
{
    let after = absorb(out, source, found);
    if found.len() > 0 {
        let earlier = found.drop_last();
        let before = absorb(out, source, earlier);
        lemma_absorb(out, source, earlier);
        assert forall|r: int| out.len() <= r < after.len() implies {
            let added = #[trigger] after[r];
            &&& lists_path(found, added.path)
            &&& added == source.with_path(added.path)
            &&& !has_path(out, added.path)
        } by {
            let added = after[r];
            if r < before.len() {
                assert(added == before[r]);
                let m = choose|m: int| 0 <= m < earlier.len() && #[trigger] earlier[m] == Some(added.path);
                assert(found[m] == Some(added.path));
            } else {
                assert(found[found.len() - 1] == Some(added.path));
                if has_path(out, added.path) {
                    let i = choose|i: int| 0 <= i < out.len() && (#[trigger] out[i]).path == added.path;
                    assert(before[i].path == added.path);
                }
            }
        }
        assert forall|path: Seq<u8>| #[trigger] lists_path(found, path) implies has_path(
            after,
            path,
        ) by {
            let m = choose|m: int| 0 <= m < found.len() && #[trigger] found[m] == Some(path);
            if m < earlier.len() {
                assert(earlier[m] == Some(path));
                assert(lists_path(earlier, path));
                let i = choose|i: int| 0 <= i < before.len() && (#[trigger] before[i]).path == path;
                assert(after[i].path == path);
            } else if has_path(before, path) {
                let i = choose|i: int| 0 <= i < before.len() && (#[trigger] before[i]).path == path;
                assert(after[i].path == path);
            } else {
                assert(after[before.len() as int].path == path);
            }
        }
        if distinct_paths(out) {
            assert forall|i: int, j: int| 0 <= i < j < after.len() implies (#[trigger] after[i]).path
                != (#[trigger] after[j]).path by {
                if j < before.len() {
                    assert(after[i] == before[i] && after[j] == before[j]);
                } else {
                    assert(before[i].path == after[i].path);
                }
            }
        }
    }
}

/// The index of the entry that gave the candidate at `r`: how many entries
/// had been merged before the candidate appeared.
pub open spec fn source_index(resolved: Seq<Resolved>, r: int) -> int
    decreases resolved.len(),
{
    if resolved.len() == 0 {
        0
    } else if r < merged(resolved.drop_last()).len() {
        source_index(resolved.drop_last(), r)
    } else {
        resolved.len() - 1
    }
}

/// The merged list holds every matched path, and holds no path twice.
pub proof fn lemma_merged_paths(resolved: Seq<Resolved>)
    ensures
        distinct_paths(merged(resolved)),
        forall|k: int, path: Seq<u8>|
            0 <= k < resolved.len() && #[trigger] lists_path(resolved[k].found, path) ==> has_path(
                merged(resolved),
                path,
            ),
    decreases resolved.len(),
{
    let out = merged(resolved);
    if resolved.len() > 0 {
        let init = resolved.drop_last();
        let last = resolved.last();
        let before = merged(init);
        lemma_merged_paths(init);
        lemma_absorb(before, last.source, last.found);
        assert forall|k: int, path: Seq<u8>|
            0 <= k < resolved.len() && #[trigger] lists_path(resolved[k].found, path) implies has_path(
            out,
            path,
        ) by {
            if k < init.len() {
                assert(resolved[k] == init[k]);
                assert(lists_path(init[k].found, path));
                let i = choose|i: int| 0 <= i < before.len() && (#[trigger] before[i]).path == path;
                assert(out[i].path == path);
            }
        }
    }
}

/// The merged list holds every matched path and holds none twice. Each
/// candidate is the first entry, in the order of the list, whose pattern
/// matched the candidate's path, moved to that path with its layout kept.
/// Candidates of an earlier entry come before those of a later one.
pub proof fn lemma_each_path_once_at_first_source(resolved: Seq<Resolved>)
    ensures
        distinct_paths(merged(resolved)),
        forall|k: int, path: Seq<u8>|
            0 <= k < resolved.len() && #[trigger] lists_path(resolved[k].found, path) ==> has_path(
                merged(resolved),
                path,
            ),
        forall|r: int|
            0 <= r < merged(resolved).len() ==> {
                let candidate = #[trigger] merged(resolved)[r];
                let k = source_index(resolved, r);
                &&& first_source(resolved, candidate.path, k)
                &&& candidate == resolved[k].source.with_path(candidate.path)
            },
        forall|r1: int, r2: int|
            0 <= r1 <= r2 < merged(resolved).len() ==> #[trigger] source_index(resolved, r1)
                <= #[trigger] source_index(resolved, r2),
{
    let out = merged(resolved);
    lemma_merged_paths(resolved);
    assert forall|r: int| 0 <= r < out.len() implies {
        let candidate = #[trigger] out[r];
        let k = source_index(resolved, r);
        &&& first_source(resolved, candidate.path, k)
        &&& candidate == resolved[k].source.with_path(candidate.path)
    } by {
        lemma_source_of_candidate(resolved, r);
    }
    assert forall|r1: int, r2: int| 0 <= r1 <= r2 < out.len() implies #[trigger] source_index(
        resolved,
        r1,
    ) <= #[trigger] source_index(resolved, r2) by {
        lemma_source_index_grows(resolved, r1, r2);
    }
}

/// The candidate at `r` is its source at the path that it stands at, and
/// its source is the first entry that matched this path.
pub proof fn lemma_source_of_candidate(resolved: Seq<Resolved>, r: int)
    requires
        0 <= r < merged(resolved).len(),
    ensures
        first_source(resolved, merged(resolved)[r].path, source_index(resolved, r)),
        merged(resolved)[r] == resolved[source_index(resolved, r)].source.with_path(
            merged(resolved)[r].path,
        ),
    decreases resolved.len(),
{
    let out = merged(resolved);
    let init = resolved.drop_last();
    let last = resolved.last();
    let before = merged(init);
    let path = out[r].path;
    lemma_absorb(before, last.source, last.found);
    if r < before.len() {
        lemma_source_of_candidate(init, r);
        let k = source_index(init, r);
        assert(resolved[k] == init[k]);
        assert forall|j: int| 0 <= j < k implies !lists_path((#[trigger] resolved[j]).found, path) by {
            assert(resolved[j] == init[j]);
        }
    } else {
        assert forall|j: int| 0 <= j < init.len() implies !lists_path(
            (#[trigger] resolved[j]).found,
            path,
        ) by {
            assert(resolved[j] == init[j]);
            if lists_path(init[j].found, path) {
                lemma_merged_paths(init);
            }
        }
    }
}

/// Only one entry is the first to match a path.
pub proof fn lemma_first_source_is_unique(resolved: Seq<Resolved>, path: Seq<u8>, k1: int, k2: int)
    requires
        first_source(resolved, path, k1),
        first_source(resolved, path, k2),
    ensures
        k1 == k2,
{
    if k1 < k2 {
        assert(!lists_path(resolved[k1].found, path));
    } else if k2 < k1 {
        assert(!lists_path(resolved[k2].found, path));
    }
}

/// Candidates stand in the order of their sources.
pub proof fn lemma_source_index_grows(resolved: Seq<Resolved>, r1: int, r2: int)
    requires
        0 <= r1 <= r2 < merged(resolved).len(),
    ensures
        0 <= source_index(resolved, r1) <= source_index(resolved, r2) < resolved.len(),
    decreases resolved.len(),
{
    let init = resolved.drop_last();
    let last = resolved.last();
    lemma_absorb(merged(init), last.source, last.found);
    if r2 < merged(init).len() {
        lemma_source_index_grows(init, r1, r2);
    } else if r1 < merged(init).len() {
        lemma_source_index_grows(init, r1, r1);
    }
}

/// Expanding a list of concrete paths that all exist, none of them twice,
/// gives the list back: the same entries in the same order. The result of
/// an expansion is such a list, so expanding it again changes nothing.
pub proof fn lemma_expansion_is_idempotent(entries: Seq<EntryView>)
    requires
        distinct_paths(entries),
    ensures
        merged(self_resolved(entries)) == entries,
    decreases entries.len(),
{
    let resolved = self_resolved(entries);
    if entries.len() == 0 {
        assert(merged(resolved) =~= entries);
    } else {
        let init = entries.drop_last();
        let last = entries.last();
        assert(resolved.drop_last() =~= self_resolved(init));
        lemma_expansion_is_idempotent(init);
        let found = resolved.last().found;
        assert(found.drop_last() =~= Seq::empty());
        assert(absorb(init, last, found.drop_last()) == init);
        assert(!has_path(init, last.path)) by {
            if has_path(init, last.path) {
                let i = choose|i: int| 0 <= i < init.len() && (#[trigger] init[i]).path == last.path;
                assert(entries[i].path == entries[entries.len() - 1].path);
            }
        }
        assert(last.with_path(last.path) == last);
        assert(init.push(last) =~= entries);
    }
}

/// An expansion can be expanded again without change.
pub proof fn lemma_expanded_list_is_stable(resolved: Seq<Resolved>)
    ensures
        merged(self_resolved(merged(resolved))) == merged(resolved),
{
    lemma_each_path_once_at_first_source(resolved);
    lemma_expansion_is_idempotent(merged(resolved));
}

/// Matches that hold no path add nothing.
pub proof fn lemma_absorb_nothing(out: Seq<EntryView>, source: EntryView, found: Matches)
    requires
        lists_nothing(found),
    ensures
        absorb(out, source, found) == out,
    decreases found.len(),
{
    if found.len() > 0 {
        assert forall|m: int| 0 <= m < found.drop_last().len() implies #[trigger] found.drop_last()[m] is None by {
            assert(found[m] is None);
        }
        lemma_absorb_nothing(out, source, found.drop_last());
        assert(found[found.len() - 1] is None);
    }
}

/// An entry whose pattern matched nothing contributes nothing: the
/// expansion is the same as without the entry.
pub proof fn lemma_unmatched_entry_contributes_nothing(resolved: Seq<Resolved>, k: int)
    requires
        0 <= k < resolved.len(),
        lists_nothing(resolved[k].found),
    ensures
        merged(resolved) == merged(resolved.remove(k)),
    decreases resolved.len(),
{
    let init = resolved.drop_last();
    let last = resolved.last();
    if k == resolved.len() - 1 {
        lemma_absorb_nothing(merged(init), last.source, last.found);
        assert(resolved.remove(k) =~= init);
    } else {
        assert(init[k] == resolved[k]);
        lemma_unmatched_entry_contributes_nothing(init, k);
        assert(resolved.remove(k).drop_last() =~= init.remove(k));
        assert(resolved.remove(k).last() == last);
    }
}

/// Whether an entry of `out` stands at `path`.
pub fn contains_path(out: &Vec<Entry>, path: &Vec<u8>) -> (found: bool)
    ensures
        found == has_path(entries_view(out@), path@),
{
    let mut i: usize = 0;
    while i < out.len()
        invariant
            i <= out@.len(),
            forall|k: int| 0 <= k < i ==> (#[trigger] entries_view(out@)[k]).path != path@,
        decreases out@.len() - i,
    {
        let same = out[i].path_of() == path;
        proof {
            if same {
                assert(out@[i as int]@.path =~= path@);
                assert(entries_view(out@)[i as int].path == path@);
            }
        }
        if same {
            return true;
        }
        i += 1;
    }
    false
}

/// Takes the matches of `source` into `out`: see [`absorb`].
pub fn absorb_matches(out: &mut Vec<Entry>, source: &Entry, found: &Vec<Option<Vec<u8>>>)
    ensures
        entries_view(final(out)@) == absorb(
            entries_view(old(out)@),
            source@,
            matches_view(found@),
        ),
{
    let ghost start = entries_view(out@);
    let ghost all = matches_view(found@);
    let mut i: usize = 0;
    assert(all.take(0) =~= Seq::empty());
    while i < found.len()
        invariant
            i <= found@.len(),
            all == matches_view(found@),
            entries_view(out@) == absorb(start, source@, all.take(i as int)),
        decreases found@.len() - i,
    {
        let ghost before = entries_view(out@);
        assert(all.take(i + 1).drop_last() =~= all.take(i as int));
        assert(all.take(i + 1).last() == all[i as int]);
        match &found[i] {
            Some(path) => {
                if !contains_path(out, path) {
                    let moved = source.clone().with_path(path.clone());
                    assert(moved@ == source@.with_path(path@));
                    out.push(moved);
                    assert(entries_view(out@) =~= before.push(source@.with_path(path@)));
                }
            },
            None => {},
        }
        i += 1;
    }
    assert(all.take(found@.len() as int) =~= all);
}

/// An entry together with what its pattern matched.
#[derive(Debug, PartialEq, Eq)]
pub struct ResolvedEntry {
    pub entry: Entry,
    pub found: Vec<Option<Vec<u8>>>,
}

impl View for ResolvedEntry {
    type V = Resolved;

    open spec fn view(&self) -> Resolved {
        Resolved { source: self.entry@, found: matches_view(self.found@) }
    }
}

/// The values of a resolved list, in order.
pub open spec fn resolved_view(resolved: Seq<ResolvedEntry>) -> Seq<Resolved> {
    Seq::new(resolved.len(), |i: int| resolved[i]@)
}

/// Merges the matches of all entries into the list of candidates, in one
/// pass in the order of the list: see [`merged`].
pub fn merge_resolved(resolved: &Vec<ResolvedEntry>) -> (out: Vec<Entry>)
    ensures
        entries_view(out@) == merged(resolved_view(resolved@)),
{
    let ghost all = resolved_view(resolved@);
    let mut out: Vec<Entry> = Vec::new();
    let mut i: usize = 0;
    assert(all.take(0) =~= Seq::empty());
    assert(entries_view(out@) =~= Seq::empty());
    while i < resolved.len()
        invariant
            i <= resolved@.len(),
            all == resolved_view(resolved@),
            entries_view(out@) == merged(all.take(i as int)),
        decreases resolved@.len() - i,
    {
        assert(all.take(i + 1).drop_last() =~= all.take(i as int));
        assert(all.take(i + 1).last() == all[i as int]);
        absorb_matches(&mut out, &resolved[i].entry, &resolved[i].found);
        i += 1;
    }
    assert(all.take(resolved@.len() as int) =~= all);
    out
}

/// What is wrong with a glob pattern: the place, as an approximate index in
/// characters, and a message.
#[derive(Clone, Debug, PartialEq, Eq)]
pub struct PatternFault {
    pub pos: usize,
    pub msg: String,
}

/// Mathematical value of a [`PatternFault`].
pub struct PatternFaultView {
    pub pos: usize,
    pub msg: Seq<char>,
}

impl View for PatternFault {
    type V = PatternFaultView;

    open spec fn view(&self) -> PatternFaultView {
        PatternFaultView { pos: self.pos, msg: self.msg@ }
    }
}

/// What `glob::glob` objects to in `pattern`: the position and the message
/// of its pattern error, or `None` for a pattern that it accepts.
pub uninterp spec fn glob_pattern_fault(pattern: Seq<char>) -> Option<(usize, Seq<char>)>;

/// The fault of `pattern`, if it has one.
pub open spec fn pattern_fault(pattern: Seq<char>) -> Option<PatternFaultView> {
    match glob_pattern_fault(pattern) {
        Some((pos, msg)) => Some(PatternFaultView { pos, msg }),
        None => None,
    }
}

/// The paths on disk that `pattern` matches, in the order in which the walk
/// yields them, with `None` for each match that failed to be read.
///
/// Trusted: this is `glob::glob` with its iterator run to the end. The glob
/// crate refuses a pattern for its syntax alone, before it looks at the
/// disk; the contract says no more than that. Nothing is claimed about the
/// matches, which depend on the disk.
#[verifier::external_body]
fn glob_matches(pattern: &str) -> (outcome: Result<Vec<Option<Vec<u8>>>, PatternFault>)
    ensures
        outcome matches Err(fault) ==> glob_pattern_fault(pattern@) == Some((fault.pos, fault.msg@)),
        outcome is Ok ==> glob_pattern_fault(pattern@) is None,
{
    match glob::glob(pattern) {
        Ok(paths) => Ok(
            paths.map(|found| found.ok().map(|path| path.into_os_string().into_encoded_bytes()))
                .collect(),
        ),
        Err(error) => Err(PatternFault { pos: error.pos, msg: error.msg.to_string() }),
    }
}

/// Why a list of entries could not be expanded.
#[derive(Clone, Debug, PartialEq, Eq)]
pub enum ExpandError {
    /// The path of the entry at `index` is not valid UTF-8.
    Encoding { index: usize, path: Vec<u8> },
    /// The path of the entry at `index` is not a glob pattern.
    Pattern { index: usize, pattern: String, fault: PatternFault },
}

/// Mathematical value of an [`ExpandError`].
pub enum ExpandFault {
    Encoding { index: int, path: Seq<u8> },
    Pattern { index: int, pattern: Seq<char>, fault: PatternFaultView },
}

impl View for ExpandError {
    type V = ExpandFault;

    open spec fn view(&self) -> ExpandFault {
        match self {
            ExpandError::Encoding { index, path } => ExpandFault::Encoding {
                index: *index as int,
                path: path@,
            },
            ExpandError::Pattern { index, pattern, fault } => ExpandFault::Pattern {
                index: *index as int,
                pattern: pattern@,
                fault: fault@,
            },
        }
    }
}

/// What keeps the entry at `index` from being expanded: a path that is not
/// UTF-8 text, or text that is not a glob pattern.
pub open spec fn entry_fault(index: int, entry: EntryView) -> Option<ExpandFault> {
    if !valid_utf8(entry.path) {
        Some(ExpandFault::Encoding { index, path: entry.path })
    } else {
        match pattern_fault(decode_utf8(entry.path)) {
            Some(fault) => Some(
                ExpandFault::Pattern { index, pattern: decode_utf8(entry.path), fault },
            ),
            None => None,
        }
    }
}

/// The fault of the first entry from `from` on that has one.
pub open spec fn first_fault(entries: Seq<EntryView>, from: int) -> Option<ExpandFault>
    decreases entries.len() - from,
{
    if from < 0 || from >= entries.len() {
        None
    } else {
        match entry_fault(from, entries[from]) {
            Some(fault) => Some(fault),
            None => first_fault(entries, from + 1),
        }
    }
}

/// Whether `resolved` pairs each of `entries`, in order, with some matches.
pub open spec fn resolves(resolved: Seq<Resolved>, entries: Seq<EntryView>) -> bool {
    &&& resolved.len() == entries.len()
    &&& forall|i: int| 0 <= i < entries.len() ==> (#[trigger] resolved[i]).source == entries[i]
}

/// Expands the stored entries into the list of candidates.
///
/// Entries are taken in stored order. The first entry whose path is not
/// UTF-8 text, or not a glob pattern, fails the whole expansion. Otherwise
/// each pattern is matched against the disk, matches that fail to be read
/// are skipped, and the result is the [`merged`] list for what was matched:
/// every concrete path once, at the first entry that matched it.
pub fn generate_expanded_entries(entries: VecDeque<Entry>) -> (result: Result<
    Vec<Entry>,
    ExpandError,
>)
    ensures
        match first_fault(entries_view(entries@), 0) {
            Some(fault) => result matches Err(error) && error@ == fault,
            None => result matches Ok(out) && exists|resolved: Seq<Resolved>|
                #![trigger merged(resolved)]
                resolves(resolved, entries_view(entries@)) && entries_view(out@) == merged(
                    resolved,
                ),
        },
        result matches Ok(out) ==> distinct_paths(entries_view(out@)),
        result matches Ok(out) ==> forall|r: int|
            0 <= r < out@.len() ==> exists|k: int|
                0 <= k < entries@.len() && (#[trigger] entries_view(out@)[r]) == (
                #[trigger] entries_view(entries@)[k]).with_path(entries_view(out@)[r].path),
{
    let ghost sources = entries_view(entries@);
    let ghost mut resolved: Seq<Resolved> = Seq::empty();
    let mut out: Vec<Entry> = Vec::new();
    let mut index: usize = 0;
    assert(entries_view(out@) =~= Seq::empty());
    while index < entries.len()
        invariant
            index <= entries@.len(),
            sources == entries_view(entries@),
            resolves(resolved, sources.take(index as int)),
            entries_view(out@) == merged(resolved),
            first_fault(sources, 0) == first_fault(sources, index as int),
        decreases entries@.len() - index,
    {
        let entry = &entries[index];
        assert(entry@ == sources[index as int]);
        let pattern = match utf8_text(entry.path_of().as_slice()) {
            Some(text) => text,
            None => {
                return Err(ExpandError::Encoding { index, path: entry.path_of().clone() });
            },
        };
        match glob_matches(pattern) {
            Err(fault) => {
                return Err(ExpandError::Pattern { index, pattern: pattern.to_owned(), fault });
            },
            Ok(found) => {
                absorb_matches(&mut out, entry, &found);
                proof {
                    let item = Resolved { source: entry@, found: matches_view(found@) };
                    assert(resolved.push(item).drop_last() =~= resolved);
                    resolved = resolved.push(item);
                }
            },
        }
        index += 1;
    }
    assert(sources.take(index as int) =~= sources);
    proof {
        lemma_each_path_once_at_first_source(resolved);
        assert forall|r: int| 0 <= r < out@.len() implies exists|k: int|
            0 <= k < entries@.len() && (#[trigger] entries_view(out@)[r]) == (
            #[trigger] sources[k]).with_path(entries_view(out@)[r].path) by {
            let k = source_index(resolved, r);
            assert(merged(resolved)[r] == resolved[k].source.with_path(merged(resolved)[r].path));
            assert(resolved[k].source == sources[k]);
        }
    }
    Ok(out)
}

} // verus!
