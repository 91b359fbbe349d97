//! The grammar of a session listing, stated as what a listing is made of.
//!
//! [`listing`] reads its input from left to right. This module says the
//! same thing the other way round: it describes the pieces that a listing is
//! written from, and proves that the inputs which `listing` accepts are
//! exactly the texts of such pieces, and that it reads from them the
//! sessions that they spell.

use vstd::prelude::*;
use crate::session::{
    byte_is, current_word, entries_from, entry_at, exited_word, line_ending_len, listing, run_end,
    status_word_at, word_at, ByteClass, SessionView,
};
use crate::text::ascii_text;

verus! {

/// Whether every byte of `run` belongs to `class`.
pub open spec fn all_hold(run: Seq<u8>, class: ByteClass) -> bool {
    forall|i: int| 0 <= i < run.len() ==> class.holds(#[trigger] run[i])
}

/// `word` between round brackets.
pub open spec fn bracketed(word: Seq<u8>) -> Seq<u8> {
    seq![0x28u8] + word + seq![0x29u8]
}

/// Whether `text` is a status, or the place of one that is left out.
pub open spec fn is_status(text: Seq<u8>) -> bool {
    ||| text == Seq::<u8>::empty()
    ||| text == bracketed(exited_word())
    ||| text == bracketed(current_word())
    ||| text == bracketed(Seq::empty())
}

/// Whether `text` is a line ending.
pub open spec fn is_line_ending(text: Seq<u8>) -> bool {
    text == seq![0x0au8] || text == seq![0x0du8, 0x0au8]
}

/// The pieces of one session entry.
pub struct Line {
    pub name: Seq<u8>,
    pub dimensions: Seq<u8>,
    pub blanks: Seq<u8>,
    pub status: Seq<u8>,
}

impl Line {
    /// Whether each piece is what the grammar allows in its place.
    pub open spec fn wf(self) -> bool {
        &&& self.name.len() > 0
        &&& all_hold(self.name, ByteClass::Name)
        &&& all_hold(self.dimensions, ByteClass::Dimensions)
        &&& all_hold(self.blanks, ByteClass::Blank)
        &&& is_status(self.status)
    }

    /// The entry as it is written: the name, a space, the dimensions in
    /// square brackets, blanks, and the status.
    pub open spec fn text(self) -> Seq<u8> {
        self.name + seq![0x20u8, 0x5bu8] + self.dimensions + seq![0x5du8] + self.blanks
            + self.status
    }

    /// The session that the entry lists.
    pub open spec fn session(self) -> SessionView {
        SessionView {
            name: ascii_text(self.name),
            exited: self.status == bracketed(exited_word()),
        }
    }
}

/// The pieces of a listing: its entries, the line endings between them, and
/// what follows the last entry.
pub struct Shape {
    pub lines: Seq<Line>,
    pub breaks: Seq<Seq<u8>>,
    pub trailing: Seq<u8>,
}

/// The entries `lines` as they are written, with `breaks` between them.
pub open spec fn joined(lines: Seq<Line>, breaks: Seq<Seq<u8>>) -> Seq<u8>
    decreases lines.len(),
{
    if lines.len() == 0 {
        Seq::empty()
    } else if lines.len() == 1 {
        lines[0].text()
    } else {
        lines[0].text() + breaks[0] + joined(lines.drop_first(), breaks.drop_first())
    }
}

/// The sessions that `lines` list.
pub open spec fn sessions_of(lines: Seq<Line>) -> Seq<SessionView> {
    Seq::new(lines.len(), |i: int| lines[i].session())
}

/// Whether entries and line endings alternate as the grammar asks: every
/// entry is well formed, and one line ending stands between each two.
pub open spec fn lines_wf(lines: Seq<Line>, breaks: Seq<Seq<u8>>) -> bool {
    &&& forall|i: int| 0 <= i < lines.len() ==> (#[trigger] lines[i]).wf()
    &&& breaks.len() == if lines.len() == 0 {
        0
    } else {
        lines.len() - 1
    }
    &&& forall|j: int| 0 <= j < breaks.len() ==> is_line_ending(#[trigger] breaks[j])
}

impl Shape {
    /// Whether the pieces are those of a listing: entries with one line
    /// ending between each two, and at the end at most one line ending.
    pub open spec fn wf(self) -> bool {
        &&& lines_wf(self.lines, self.breaks)
        &&& (self.trailing.len() == 0 || is_line_ending(self.trailing))
    }

    /// The listing as it is written.
    pub open spec fn text(self) -> Seq<u8> {
        joined(self.lines, self.breaks) + self.trailing
    }

    /// The sessions that the listing lists.
    pub open spec fn sessions(self) -> Seq<SessionView> {
        sessions_of(self.lines)
    }
}

/// A run ends where the bytes of its class end.
pub proof fn lemma_run_to(s: Seq<u8>, from: int, to: int, class: ByteClass)
    requires
        0 <= from <= to <= s.len(),
        forall|i: int| from <= i < to ==> class.holds(#[trigger] s[i]),
        to == s.len() || !class.holds(s[to]),
    ensures
        run_end(s, from, class) == to,
    decreases to - from,
{
    if from < to {
        assert(class.holds(s[from]));
        lemma_run_to(s, from + 1, to, class);
    }
}

/// The first letters of the status words, and their lengths.
pub proof fn lemma_status_words()
    ensures
        exited_word().len() == 28,
        exited_word()[0] == 0x45,
        current_word().len() == 7,
        current_word()[0] == 0x63,
{
    reveal_strlit("EXITED - attach to resurrect");
    reveal_strlit("current");
}

/// Where the pieces of an entry stand in its text.
pub proof fn lemma_line_text(line: Line)
    ensures
        line.text().len() == line.name.len() + line.dimensions.len() + line.blanks.len()
            + line.status.len() + 3,
        forall|i: int| 0 <= i < line.name.len() ==> line.text()[i] == #[trigger] line.name[i],
        line.text()[line.name.len() as int] == 0x20,
        line.text()[line.name.len() as int + 1] == 0x5b,
        forall|i: int|
            0 <= i < line.dimensions.len() ==> line.text()[line.name.len() as int + 2 + i]
                == #[trigger] line.dimensions[i],
        line.text()[line.name.len() as int + 2 + line.dimensions.len() as int] == 0x5d,
        forall|i: int|
            0 <= i < line.blanks.len() ==> line.text()[line.name.len() as int + 3
                + line.dimensions.len() as int + i] == #[trigger] line.blanks[i],
        forall|i: int|
            0 <= i < line.status.len() ==> line.text()[line.name.len() as int + 3
                + line.dimensions.len() as int + line.blanks.len() as int + i]
                == #[trigger] line.status[i],
{
}

/// An entry that is written into an input, and is followed there by a line
/// ending or by nothing, is read as the session that it spells.
pub proof fn lemma_entry_reads_line(s: Seq<u8>, at: int, line: Line)
    requires
        line.wf(),
        word_at(s, at, line.text()),
        at + line.text().len() == s.len() || line_ending_len(s, at + line.text().len()) > 0,
    ensures
        entry_at(s, at) == Ok::<(SessionView, int), crate::session::Failure>(
            (line.session(), at + line.text().len()),
        ),
{
    let text = line.text();
    let n = line.name.len() as int;
    let d = line.dimensions.len() as int;
    let b = line.blanks.len() as int;
    let t = line.status.len() as int;
    let end = at + text.len();
    lemma_line_text(line);
    lemma_status_words();
    assert forall|k: int| 0 <= k < text.len() implies s[at + k] == text[k] by {
        assert(s.subrange(at, end)[k] == s[at + k]);
    }
    // the name
    let name_end = at + n;
    assert forall|i: int| at <= i < name_end implies ByteClass::Name.holds(#[trigger] s[i]) by {
        assert(s[at + (i - at)] == text[i - at]);
        assert(ByteClass::Name.holds(line.name[i - at]));
    }
    assert(s[at + n] == 0x20);
    lemma_run_to(s, at, name_end, ByteClass::Name);
    assert(s.subrange(at, name_end) =~= line.name);
    // the dimensions
    assert(s[at + (n + 1)] == 0x5b);
    let dimensions_end = name_end + 2 + d;
    assert forall|i: int| name_end + 2 <= i < dimensions_end implies ByteClass::Dimensions.holds(
        #[trigger] s[i],
    ) by {
        let k = i - name_end - 2;
        assert(s[at + (n + 2 + k)] == text[n + 2 + k]);
        assert(ByteClass::Dimensions.holds(line.dimensions[k]));
    }
    assert(s[at + (n + 2 + d)] == 0x5d);
    lemma_run_to(s, name_end + 2, dimensions_end, ByteClass::Dimensions);
    // the blanks
    let blank_end = dimensions_end + 1 + b;
    assert forall|i: int| dimensions_end + 1 <= i < blank_end implies ByteClass::Blank.holds(
        #[trigger] s[i],
    ) by {
        let k = i - dimensions_end - 1;
        assert(s[at + (n + 3 + d + k)] == text[n + 3 + d + k]);
        assert(ByteClass::Blank.holds(line.blanks[k]));
    }
    assert forall|k: int| 0 <= k < t implies s[blank_end + k] == line.status[k] by {
        assert(s[at + (n + 3 + d + b + k)] == text[n + 3 + d + b + k]);
    }
    if t > 0 {
        assert(line.status[0] == 0x28);
        assert(s[blank_end + 0] == line.status[0]);
    }
    lemma_run_to(s, dimensions_end + 1, blank_end, ByteClass::Blank);
    // the status
    if t == 0 {
        assert(!byte_is(s, blank_end, 0x28));
        assert(line.status != bracketed(exited_word()));
    } else {
        let word_from = blank_end + 1;
        assert(byte_is(s, blank_end, 0x28));
        assert(s[blank_end + 1] == line.status[1]);
        if line.status == bracketed(exited_word()) {
            assert(s.subrange(word_from, word_from + 28) =~= exited_word()) by {
                assert forall|k: int| 0 <= k < 28 implies s[word_from + k] == exited_word()[k] by {
                    assert(s[blank_end + (k + 1)] == line.status[k + 1]);
                }
            }
            assert(s[blank_end + 29] == line.status[29]);
        } else if line.status == bracketed(current_word()) {
            assert(!word_at(s, word_from, exited_word())) by {
                if word_at(s, word_from, exited_word()) {
                    assert(s.subrange(word_from, word_from + 28)[0] == s[word_from]);
                }
            }
            assert(s.subrange(word_from, word_from + 7) =~= current_word()) by {
                assert forall|k: int| 0 <= k < 7 implies s[word_from + k] == current_word()[k] by {
                    assert(s[blank_end + (k + 1)] == line.status[k + 1]);
                }
            }
            assert(s[blank_end + 8] == line.status[8]);
            assert(line.status.len() != bracketed(exited_word()).len());
        } else {
            assert(line.status == bracketed(Seq::empty()));
            assert(!word_at(s, word_from, exited_word())) by {
                if word_at(s, word_from, exited_word()) {
                    assert(s.subrange(word_from, word_from + 28)[0] == s[word_from]);
                }
            }
            assert(!word_at(s, word_from, current_word())) by {
                if word_at(s, word_from, current_word()) {
                    assert(s.subrange(word_from, word_from + 7)[0] == s[word_from]);
                }
            }
            assert(line.status.len() != bracketed(exited_word()).len());
        }
    }
}

/// A line ending that is written into an input is measured as it is long.
pub proof fn lemma_line_ending_measured(s: Seq<u8>, at: int, ending: Seq<u8>)
    requires
        is_line_ending(ending),
        word_at(s, at, ending),
    ensures
        line_ending_len(s, at) == ending.len(),
{
    assert(s.subrange(at, at + ending.len())[0] == s[at]);
    if ending.len() == 2 {
        assert(s.subrange(at, at + ending.len())[1] == s[at + 1]);
    }
}

/// Entries that are written into an input up to its end, with a line ending
/// between each two and at most one line ending behind the last, are read
/// as the sessions that they spell.
pub proof fn lemma_entries_read_lines(
    s: Seq<u8>,
    at: int,
    lines: Seq<Line>,
    breaks: Seq<Seq<u8>>,
    trailing: Seq<u8>,
)
    requires
        lines.len() >= 1,
        lines_wf(lines, breaks),
        trailing.len() == 0 || is_line_ending(trailing),
        0 <= at <= s.len(),
        s.subrange(at, s.len() as int) == joined(lines, breaks) + trailing,
    ensures
        entries_from(s, at) == Ok::<Seq<SessionView>, crate::session::Failure>(sessions_of(lines)),
    decreases lines.len(),
{
    let line = lines[0];
    let text = line.text();
    let end = at + text.len();
    let tail = s.subrange(at, s.len() as int);
    lemma_line_text(line);
    assert(line.wf());
    if lines.len() == 1 {
        assert(joined(lines, breaks) == text);
        assert(tail == text + trailing);
        assert(tail.len() == text.len() + trailing.len());
        assert(end <= s.len());
        assert(s.subrange(at, end) =~= text) by {
            assert forall|k: int| 0 <= k < text.len() implies s[at + k] == text[k] by {
                assert(tail[k] == s[at + k]);
            }
        }
        if trailing.len() > 0 {
            assert(s.subrange(end, end + trailing.len()) =~= trailing) by {
                assert forall|k: int| 0 <= k < trailing.len() implies s[end + k] == trailing[k] by {
                    assert(tail[text.len() + k] == s[at + (text.len() + k)]);
                }
            }
            lemma_line_ending_measured(s, end, trailing);
        }
        lemma_entry_reads_line(s, at, line);
        assert(sessions_of(lines) =~= seq![line.session()]);
    } else {
        let ending = breaks[0];
        let rest_lines = lines.drop_first();
        let rest_breaks = breaks.drop_first();
        let rest = joined(rest_lines, rest_breaks);
        let next = end + ending.len();
        assert(is_line_ending(ending));
        assert(joined(lines, breaks) == text + ending + rest);
        assert(tail == text + ending + rest + trailing);
        assert(tail.len() == text.len() + ending.len() + rest.len() + trailing.len());
        assert(next <= s.len());
        assert(s.subrange(at, end) =~= text) by {
            assert forall|k: int| 0 <= k < text.len() implies s[at + k] == text[k] by {
                assert(tail[k] == s[at + k]);
            }
        }
        assert(s.subrange(end, next) =~= ending) by {
            assert forall|k: int| 0 <= k < ending.len() implies s[end + k] == ending[k] by {
                assert(tail[text.len() + k] == s[at + (text.len() + k)]);
            }
        }
        lemma_line_ending_measured(s, end, ending);
        lemma_entry_reads_line(s, at, line);
        assert(lines_wf(rest_lines, rest_breaks)) by {
            assert forall|i: int| 0 <= i < rest_lines.len() implies (#[trigger] rest_lines[i]).wf() by {
                assert(rest_lines[i] == lines[i + 1]);
            }
            assert forall|j: int| 0 <= j < rest_breaks.len() implies is_line_ending(
                #[trigger] rest_breaks[j],
            ) by {
                assert(rest_breaks[j] == breaks[j + 1]);
            }
        }
        assert(rest.len() > 0) by {
            lemma_line_text(rest_lines[0]);
            assert(rest_lines[0].wf());
        }
        assert(s.subrange(next, s.len() as int) =~= rest + trailing) by {
            assert forall|k: int| 0 <= k < rest.len() + trailing.len() implies s[next + k] == (rest
                + trailing)[k] by {
                assert(tail[text.len() + ending.len() + k] == s[at + (text.len() + ending.len()
                    + k)]);
            }
        }
        lemma_entries_read_lines(s, next, rest_lines, rest_breaks, trailing);
        assert(seq![line.session()] + sessions_of(rest_lines) =~= sessions_of(lines)) by {
            assert forall|i: int| 1 <= i < lines.len() implies sessions_of(rest_lines)[i - 1]
                == sessions_of(lines)[i] by {
                assert(rest_lines[i - 1] == lines[i]);
            }
        }
    }
}

/// Every text that is written by the grammar is a listing, and lists the
/// sessions that its entries spell, in their order.
pub proof fn lemma_listing_reads_shape(shape: Shape)
    requires
        shape.wf(),
    ensures
        listing(shape.text()) == Ok::<Seq<SessionView>, crate::session::Failure>(shape.sessions()),
{
    let s = shape.text();
    if shape.lines.len() == 0 {
        assert(s =~= shape.trailing);
        assert(shape.sessions() =~= Seq::empty());
    } else {
        let line = shape.lines[0];
        lemma_line_text(line);
        assert(line.wf());
        assert(s[0] == line.text()[0]);
        assert(ByteClass::Name.holds(line.name[0]));
        assert(s.subrange(0, s.len() as int) =~= s);
        lemma_entries_read_lines(s, 0, shape.lines, shape.breaks, shape.trailing);
    }
}

/// Whatever is read as a session entry is an entry of the grammar: the
/// bytes that were read are the text of well-formed pieces, and the session
/// is the one that they spell.
pub proof fn lemma_entry_has_line(s: Seq<u8>, at: int) -> (line: Line)
    requires
        0 <= at <= s.len(),
        entry_at(s, at) is Ok,
    ensures
        line.wf(),
        word_at(s, at, line.text()),
        entry_at(s, at) == Ok::<(SessionView, int), crate::session::Failure>(
            (line.session(), at + line.text().len()),
        ),
{
    let name_end = run_end(s, at, ByteClass::Name);
    let dimensions_end = run_end(s, name_end + 2, ByteClass::Dimensions);
    let blank_end = run_end(s, dimensions_end + 1, ByteClass::Blank);
    let (status, word_end) = status_word_at(s, blank_end + 1);
    let end = entry_at(s, at)->Ok_0.1;
    crate::session::lemma_run_end(s, at, ByteClass::Name);
    crate::session::lemma_run_end(s, name_end + 2, ByteClass::Dimensions);
    crate::session::lemma_run_end(s, dimensions_end + 1, ByteClass::Blank);
    lemma_status_words();
    assert(blank_end <= end <= s.len());
    let line = Line {
        name: s.subrange(at, name_end),
        dimensions: s.subrange(name_end + 2, dimensions_end),
        blanks: s.subrange(dimensions_end + 1, blank_end),
        status: s.subrange(blank_end, end),
    };
    lemma_line_text(line);
    assert(s.subrange(at, end) =~= line.text());
    if byte_is(s, blank_end, 0x28) {
        let word = s.subrange(blank_end + 1, word_end);
        assert(line.status =~= bracketed(word));
        if word_at(s, blank_end + 1, exited_word()) {
            assert(word =~= exited_word());
        } else if word_at(s, blank_end + 1, current_word()) {
            assert(word =~= current_word());
            assert(bracketed(word).len() != bracketed(exited_word()).len());
        } else {
            assert(word =~= Seq::<u8>::empty());
            assert(bracketed(word).len() != bracketed(exited_word()).len());
        }
    } else {
        assert(line.status =~= Seq::<u8>::empty());
        assert(line.status.len() != bracketed(exited_word()).len());
    }
    line
}

/// Whatever is read as a list of entries is written as the grammar asks.
pub proof fn lemma_entries_have_lines(s: Seq<u8>, at: int) -> (shape: Shape)
    requires
        0 <= at <= s.len(),
        entries_from(s, at) is Ok,
    ensures
        shape.wf(),
        shape.lines.len() >= 1,
        s.subrange(at, s.len() as int) == shape.text(),
        entries_from(s, at) == Ok::<Seq<SessionView>, crate::session::Failure>(shape.sessions()),
    decreases s.len() - at,
{
    let line = lemma_entry_has_line(s, at);
    let end = at + line.text().len();
    let skip = line_ending_len(s, end);
    let next = end + skip;
    let tail = s.subrange(at, s.len() as int);
    lemma_line_text(line);
    if end >= s.len() {
        let shape = Shape { lines: seq![line], breaks: Seq::empty(), trailing: Seq::empty() };
        assert(tail =~= shape.text());
        assert(shape.sessions() =~= seq![line.session()]);
        shape
    } else if next >= s.len() {
        let trailing = s.subrange(end, s.len() as int);
        let shape = Shape { lines: seq![line], breaks: Seq::empty(), trailing };
        assert(trailing =~= seq![0x0au8] || trailing =~= seq![0x0du8, 0x0au8]);
        assert(tail =~= shape.text());
        assert(shape.sessions() =~= seq![line.session()]);
        shape
    } else {
        let ending = s.subrange(end, next);
        assert(ending =~= seq![0x0au8] || ending =~= seq![0x0du8, 0x0au8]);
        let rest = lemma_entries_have_lines(s, next);
        let shape = Shape {
            lines: seq![line] + rest.lines,
            breaks: seq![ending] + rest.breaks,
            trailing: rest.trailing,
        };
        assert(shape.lines.drop_first() =~= rest.lines);
        assert(shape.breaks.drop_first() =~= rest.breaks);
        assert(joined(shape.lines, shape.breaks) == line.text() + ending + joined(
            rest.lines,
            rest.breaks,
        ));
        assert(tail =~= shape.text()) by {
            assert(s.subrange(next, s.len() as int) == rest.text());
            assert(tail =~= s.subrange(at, end) + s.subrange(end, next) + s.subrange(
                next,
                s.len() as int,
            ));
        }
        assert(lines_wf(shape.lines, shape.breaks)) by {
            assert forall|i: int| 0 <= i < shape.lines.len() implies (#[trigger] shape.lines[i]).wf() by {
                if i > 0 {
                    assert(shape.lines[i] == rest.lines[i - 1]);
                }
            }
            assert forall|j: int| 0 <= j < shape.breaks.len() implies is_line_ending(
                #[trigger] shape.breaks[j],
            ) by {
                if j > 0 {
                    assert(shape.breaks[j] == rest.breaks[j - 1]);
                }
            }
        }
        assert(shape.sessions() =~= seq![line.session()] + rest.sessions()) by {
            assert forall|i: int| 1 <= i < shape.lines.len() implies shape.sessions()[i]
                == rest.sessions()[i - 1] by {
                assert(shape.lines[i] == rest.lines[i - 1]);
            }
        }
        shape
    }
}

/// Every listing is written as the grammar asks: it is the text of
/// well-formed entries with one line ending between each two and at most one
/// behind the last, and it lists the sessions that these entries spell.
/// With [`lemma_listing_reads_shape`]: an input is a listing exactly when
/// the grammar writes it.
pub proof fn lemma_listing_has_shape(s: Seq<u8>) -> (shape: Shape)
    requires
        listing(s) is Ok,
    ensures
        shape.wf(),
        shape.text() == s,
        listing(s) == Ok::<Seq<SessionView>, crate::session::Failure>(shape.sessions()),
{
    if s.len() == 0 || line_ending_len(s, 0) == s.len() {
        let shape = Shape { lines: Seq::empty(), breaks: Seq::empty(), trailing: s };
        assert(s.len() > 0 ==> s =~= seq![0x0au8] || s =~= seq![0x0du8, 0x0au8]);
        assert(shape.text() =~= s);
        assert(shape.sessions() =~= Seq::empty());
        shape
    } else {
        let shape = lemma_entries_have_lines(s, 0);
        assert(s.subrange(0, s.len() as int) =~= s);
        shape
    }
}

} // verus!
