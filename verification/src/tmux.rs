//! The plain listing of session names: one name per line, as a multiplexer
//! prints it when asked for the names alone.
//!
//! Lines end at a line feed; a line feed at the very end ends the last line
//! and starts no new one. Each line names a session, once the whitespace
//! around the name is taken off. Such a listing knows no exited sessions.

use vstd::prelude::*;
use vstd::string::StrSliceExecFns;
use crate::session::{sessions_view, SessionView, ZellijSession};

verus! {

/// Whether `c` is white space, as Unicode defines it.
pub open spec fn is_whitespace(c: char) -> bool {
    let code = c as u32;
    ||| 0x09 <= code <= 0x0d
    ||| code == 0x20
    ||| code == 0x85
    ||| code == 0xa0
    ||| code == 0x1680
    ||| 0x2000 <= code <= 0x200a
    ||| code == 0x2028
    ||| code == 0x2029
    ||| code == 0x202f
    ||| code == 0x205f
    ||| code == 0x3000
}

/// The length of the line that starts at `from`: the number of characters
/// before the next line feed, or before the end of the text.
pub open spec fn line_len(text: Seq<char>, from: int) -> nat
    decreases text.len() - from,
{
    if 0 <= from < text.len() && text[from] != '\n' {
        1 + line_len(text, from + 1)
    } else {
        0
    }
}

/// Where the line that starts at `from` ends.
pub open spec fn line_end(text: Seq<char>, from: int) -> int {
    from + line_len(text, from)
}

/// Where the white space ends that starts at `from` and goes no further
/// than `to`.
pub open spec fn blank_end(text: Seq<char>, from: int, to: int) -> int
    decreases to - from,
{
    if 0 <= from < to <= text.len() && is_whitespace(text[from]) {
        blank_end(text, from + 1, to)
    } else {
        from
    }
}

/// Where the white space starts that ends at `to` and starts no earlier
/// than `from`.
pub open spec fn blank_start(text: Seq<char>, from: int, to: int) -> int
    decreases to - from,
{
    if 0 <= from < to <= text.len() && is_whitespace(text[to - 1]) {
        blank_start(text, from, to - 1)
    } else {
        to
    }
}

/// The session that the line from `from` to `to` names: the line without the
/// white space at its ends.
pub open spec fn named_in(text: Seq<char>, from: int, to: int) -> SessionView {
    let start = blank_end(text, from, to);
    let end = blank_start(text, start, to);
    SessionView { name: text.subrange(start, end), exited: false }
}

/// The sessions that the lines from `from` on name.
pub open spec fn sessions_from(text: Seq<char>, from: int) -> Seq<SessionView>
    decreases text.len() + 1 - from,
    via sessions_from_decreases
{
    if from < 0 || from >= text.len() {
        Seq::empty()
    } else {
        seq![named_in(text, from, line_end(text, from))] + sessions_from(
            text,
            line_end(text, from) + 1,
        )
    }
}

#[via_fn]
proof fn sessions_from_decreases(text: Seq<char>, from: int) {
    if 0 <= from < text.len() {
        lemma_line_end(text, from);
    }
}

/// The sessions that a plain listing names, in order.
pub open spec fn tmux_listing(text: Seq<char>) -> Seq<SessionView> {
    sessions_from(text, 0)
}

/// A line ends inside the text, and holds no line feed.
pub proof fn lemma_line_end(text: Seq<char>, from: int)
    requires
        0 <= from <= text.len(),
    ensures
        from <= line_end(text, from) <= text.len(),
        forall|i: int| from <= i < line_end(text, from) ==> text[i] != '\n',
        line_end(text, from) < text.len() ==> text[line_end(text, from)] == '\n',
    decreases text.len() - from,
{
    if from < text.len() && text[from] != '\n' {
        lemma_line_end(text, from + 1);
        assert forall|i: int| from <= i < line_end(text, from) implies text[i] != '\n' by {
            if i > from {
                assert(line_end(text, from) == line_end(text, from + 1));
            }
        }
    }
}

/// What is left of a line has no white space at its ends.
pub proof fn lemma_named_in(text: Seq<char>, from: int, to: int)
    requires
        0 <= from <= to <= text.len(),
    ensures
        from <= blank_end(text, from, to) <= blank_start(text, blank_end(text, from, to), to)
            <= to,
        forall|i: int| from <= i < blank_end(text, from, to) ==> is_whitespace(text[i]),
        forall|i: int|
            blank_start(text, blank_end(text, from, to), to) <= i < to ==> is_whitespace(text[i]),
        named_in(text, from, to).name.len() > 0 ==> !is_whitespace(
            named_in(text, from, to).name.first(),
        ) && !is_whitespace(named_in(text, from, to).name.last()),
{
    lemma_blank_end(text, from, to);
    lemma_blank_start(text, blank_end(text, from, to), to);
}

/// The white space at the start of a line.
pub proof fn lemma_blank_end(text: Seq<char>, from: int, to: int)
    requires
        0 <= from <= to <= text.len(),
    ensures
        from <= blank_end(text, from, to) <= to,
        forall|i: int| from <= i < blank_end(text, from, to) ==> is_whitespace(text[i]),
        blank_end(text, from, to) < to ==> !is_whitespace(text[blank_end(text, from, to)]),
    decreases to - from,
{
    if from < to && is_whitespace(text[from]) {
        lemma_blank_end(text, from + 1, to);
    }
}

/// The white space at the end of a line.
pub proof fn lemma_blank_start(text: Seq<char>, from: int, to: int)
    requires
        0 <= from <= to <= text.len(),
    ensures
        from <= blank_start(text, from, to) <= to,
        forall|i: int| blank_start(text, from, to) <= i < to ==> is_whitespace(text[i]),
        from < blank_start(text, from, to) ==> !is_whitespace(text[blank_start(text, from, to) - 1]),
    decreases to - from,
{
    if from < to && is_whitespace(text[to - 1]) {
        lemma_blank_start(text, from, to - 1);
    }
}

fn white(c: char) -> (blank: bool)
    ensures
        blank == is_whitespace(c),
{
    let code = c as u32;
    (0x09 <= code && code <= 0x0d) || code == 0x20 || code == 0x85 || code == 0xa0 || code
        == 0x1680 || (0x2000 <= code && code <= 0x200a) || code == 0x2028 || code == 0x2029
        || code == 0x202f || code == 0x205f || code == 0x3000
}

/// Reads a plain listing of session names: see [`tmux_listing`].
pub fn tmux_sessions(listed: &str) -> (sessions: Vec<ZellijSession>)
    ensures
        sessions_view(sessions@) == tmux_listing(listed@),
{
    let len = listed.unicode_len();
    let mut sessions: Vec<ZellijSession> = Vec::new();
    let mut from: usize = 0;
    assert(sessions_view(sessions@) =~= Seq::empty());
    while from < len
        invariant
            len == listed@.len(),
            tmux_listing(listed@) == sessions_view(sessions@) + sessions_from(
                listed@,
                from as int,
            ),
        decreases len - from,
    {
        let ghost found = sessions_view(sessions@);
        let mut to = from;
        while to < len && listed.get_char(to) != '\n'
            invariant
                from <= to <= len == listed@.len(),
                line_end(listed@, from as int) == line_end(listed@, to as int),
            decreases len - to,
        {
            to += 1;
        }
        let mut start = from;
        while start < to && white(listed.get_char(start))
            invariant
                from <= start <= to <= len == listed@.len(),
                blank_end(listed@, from as int, to as int) == blank_end(
                    listed@,
                    start as int,
                    to as int,
                ),
            decreases to - start,
        {
            start += 1;
        }
        let mut end = to;
        while start < end && white(listed.get_char(end - 1))
            invariant
                start <= end <= to <= len == listed@.len(),
                blank_start(listed@, start as int, to as int) == blank_start(
                    listed@,
                    start as int,
                    end as int,
                ),
            decreases end - start,
        {
            end -= 1;
        }
        let session = ZellijSession {
            name: listed.substring_char(start, end).to_owned(),
            exited: false,
        };
        assert(session@ == named_in(listed@, from as int, to as int));
        sessions.push(session);
        proof {
            let rest = sessions_from(listed@, to + 1);
            assert(sessions_view(sessions@) =~= found + seq![session@]);
            assert(found + (seq![session@] + rest) =~= (found + seq![session@]) + rest);
        }
        if to == len {
            from = len;
        } else {
            from = to + 1;
        }
    }
    assert(sessions_from(listed@, from as int) =~= Seq::empty());
    sessions
}

} // verus!
