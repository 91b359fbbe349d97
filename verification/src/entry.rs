//! The stored project record and its path substitution.

use vstd::prelude::*;
use vstd::string::StringExecFns;
use vstd::utf8::encode_utf8;
use crate::quote::{escape_path, escaped_path, escaped_text, lemma_escaped_text};
use crate::text::{ascii_bytes, lemma_ascii_encodes};

verus! {

/// Mathematical value of an [`Entry`]: the bytes of its path and, for an
/// entry that carries one, the characters of its layout name.
pub struct EntryView {
    pub path: Seq<u8>,
    pub layout: Option<Seq<char>>,
}

impl EntryView {
    /// The same record at another path.
    pub open spec fn with_path(self, path: Seq<u8>) -> EntryView {
        EntryView { path, layout: self.layout }
    }

    /// The text that stands for the record wherever a user picks one: the
    /// path in double quotes, escaped as [`escaped_text`] says, followed
    /// for a record with a layout by `` with layout '<layout>'``.
    pub open spec fn display_text(self) -> Seq<char> {
        let quoted = "\""@ + escaped_text(self.path) + "\""@;
        match self.layout {
            None => quoted,
            Some(layout) => quoted + " with layout '"@ + layout + "'"@,
        }
    }

    /// The UTF-8 encoding of the display text.
    pub open spec fn display_bytes(self) -> Seq<u8> {
        seq![0x22u8] + escaped_path(self.path) + seq![0x22u8] + layout_bytes(self.layout)
    }

    /// A layout, where there is one, is not the empty string.
    pub open spec fn wf(self) -> bool {
        self.layout matches Some(name) ==> name.len() > 0
    }
}

/// A stored project record: a filesystem path, which may be a glob pattern,
/// and optionally the name of a layout to open it with.
///
/// Paths are kept as the bytes the operating system uses, so that paths
/// which are not valid UTF-8 can be carried and reported.
#[derive(Debug, PartialEq, Eq)]
pub enum Entry {
    Bare { path: Vec<u8> },
    WithLayout { path: Vec<u8>, layout: String },
}

impl View for Entry {
    type V = EntryView;

    open spec fn view(&self) -> EntryView {
        match self {
            Entry::Bare { path } => EntryView { path: path@, layout: None },
            Entry::WithLayout { path, layout } => EntryView { path: path@, layout: Some(layout@) },
        }
    }
}

/// The values of a list of entries, in order.
pub open spec fn entries_view(entries: Seq<Entry>) -> Seq<EntryView> {
    Seq::new(entries.len(), |i: int| entries[i]@)
}

impl Clone for Entry {
    fn clone(&self) -> (copy: Entry)
        ensures
            copy@ == self@,
            copy is Bare <==> self is Bare,
    {
        match self {
            Entry::Bare { path } => Entry::Bare { path: copy_bytes(path.as_slice()) },
            Entry::WithLayout { path, layout } => Entry::WithLayout {
                path: copy_bytes(path.as_slice()),
                layout: layout.clone(),
            },
        }
    }
}

/// An owned copy of `bytes`.
pub fn copy_bytes(bytes: &[u8]) -> (copy: Vec<u8>)
    ensures
        copy@ == bytes@,
{
    vstd::slice::slice_to_vec(bytes)
}

impl Entry {
    /// Whether the record obeys the invariant of stored entries.
    pub open spec fn wf(&self) -> bool {
        self@.wf()
    }

    /// An entry without a layout.
    pub fn bare(path: Vec<u8>) -> (entry: Entry)
        ensures
            entry@ == (EntryView { path: path@, layout: None }),
            entry.wf(),
    {
        Entry::Bare { path }
    }

    /// An entry with a layout. The name of a layout is not empty: for the
    /// empty name there is no entry.
    pub fn with_layout(path: Vec<u8>, layout: String) -> (entry: Option<Entry>)
        ensures
            match entry {
                Some(entry) => layout@.len() > 0 && entry.wf() && entry@ == (EntryView {
                    path: path@,
                    layout: Some(layout@),
                }),
                None => layout@.len() == 0,
            },
    {
        if layout.as_str().is_empty() {
            None
        } else {
            Some(Entry::WithLayout { path, layout })
        }
    }

    /// Whether the entry obeys the invariant of stored entries.
    pub fn is_well_formed(&self) -> (valid: bool)
        ensures
            valid == self.wf(),
    {
        match self {
            Entry::Bare { .. } => true,
            Entry::WithLayout { layout, .. } => !layout.as_str().is_empty(),
        }
    }

    /// The entry's path, whichever variant it is.
    pub fn path_of(&self) -> (path: &Vec<u8>)
        ensures
            path@ == self@.path,
    {
        match self {
            Entry::Bare { path } => path,
            Entry::WithLayout { path, .. } => path,
        }
    }

    /// The entry's layout, if it has one.
    pub fn layout_of(&self) -> (layout: Option<&String>)
        ensures
            match layout {
                Some(name) => self@.layout == Some(name@),
                None => self@.layout is None,
            },
    {
        match self {
            Entry::Bare { .. } => None,
            Entry::WithLayout { layout, .. } => Some(layout),
        }
    }

    /// The text that stands for the entry wherever a user picks one.
    pub fn display_string(&self) -> (text: String)
        ensures
            text@ == self@.display_text(),
    {
        let quoted = String::from_str("\"").concat(
            escape_path(self.path_of().as_slice()).as_str(),
        ).concat("\"");
        match self {
            Entry::Bare { .. } => quoted,
            Entry::WithLayout { layout, .. } => quoted.concat(" with layout '").concat(
                layout.as_str(),
            ).concat("'"),
        }
    }

    /// The same entry at `path`: the variant and the layout are kept.
    pub fn with_path(self, path: Vec<u8>) -> (entry: Entry)
        ensures
            entry@ == self@.with_path(path@),
            entry is Bare <==> self is Bare,
            self.wf() ==> entry.wf(),
    {
        match self {
            Entry::Bare { .. } => Entry::Bare { path },
            Entry::WithLayout { layout, .. } => Entry::WithLayout { path, layout },
        }
    }
}

/// The UTF-8 encoding of what the display text says of the layout.
pub open spec fn layout_bytes(layout: Option<Seq<char>>) -> Seq<u8> {
    match layout {
        None => Seq::empty(),
        Some(name) => ascii_bytes(" with layout '"@) + encode_utf8(name) + seq![0x27u8],
    }
}

/// The encoding of two texts in a row is the encoding of the one followed by
/// the encoding of the other.
pub proof fn lemma_encode_concat(front: Seq<char>, back: Seq<char>)
    ensures
        encode_utf8(front + back) == encode_utf8(front) + encode_utf8(back),
    decreases front.len(),
{
    if front.len() == 0 {
        assert(front + back =~= back);
        assert(encode_utf8(front) + encode_utf8(back) =~= encode_utf8(back));
    } else {
        assert((front + back)[0] == front[0]);
        assert((front + back).drop_first() =~= front.drop_first() + back);
        lemma_encode_concat(front.drop_first(), back);
        assert(encode_utf8(front + back) =~= encode_utf8(front) + encode_utf8(back));
    }
}

/// The display text encodes to the display bytes: a double quote, the
/// escaped path, a double quote, and what is said of the layout.
pub proof fn lemma_display_bytes(entry: EntryView)
    ensures
        encode_utf8(entry.display_text()) == entry.display_bytes(),
{
    reveal_strlit("\"");
    reveal_strlit(" with layout '");
    reveal_strlit("'");
    let quote = "\""@;
    let body = escaped_text(entry.path);
    lemma_escaped_text(entry.path);
    lemma_ascii_encodes(quote);
    assert(encode_utf8(quote) =~= seq![0x22u8]);
    lemma_encode_concat(quote, body);
    lemma_encode_concat(quote + body, quote);
    match entry.layout {
        None => {
            assert(entry.display_bytes() =~= seq![0x22u8] + escaped_path(entry.path) + seq![
                0x22u8,
            ]);
        },
        Some(name) => {
            let opening = " with layout '"@;
            let closing = "'"@;
            lemma_ascii_encodes(opening);
            lemma_ascii_encodes(closing);
            assert(encode_utf8(closing) =~= seq![0x27u8]);
            lemma_encode_concat(quote + body + quote, opening);
            lemma_encode_concat(quote + body + quote + opening, name);
            lemma_encode_concat(quote + body + quote + opening + name, closing);
            assert(entry.display_bytes() =~= seq![0x22u8] + escaped_path(entry.path) + seq![
                0x22u8,
            ] + ascii_bytes(opening) + encode_utf8(name) + seq![0x27u8]);
        },
    }
}

/// Two quoted runs without a double quote inside, each followed by more,
/// are the same text only if the runs are the same and what follows is.
pub proof fn lemma_quoted_runs(
    run: Seq<u8>,
    rest: Seq<u8>,
    other_run: Seq<u8>,
    other_rest: Seq<u8>,
)
    requires
        forall|i: int| 0 <= i < run.len() ==> #[trigger] run[i] != 0x22,
        forall|i: int| 0 <= i < other_run.len() ==> #[trigger] other_run[i] != 0x22,
        seq![0x22u8] + run + seq![0x22u8] + rest == seq![0x22u8] + other_run + seq![0x22u8]
            + other_rest,
    ensures
        run == other_run,
        rest == other_rest,
{
    let one = seq![0x22u8] + run + seq![0x22u8] + rest;
    let other = seq![0x22u8] + other_run + seq![0x22u8] + other_rest;
    let n = run.len() as int;
    let m = other_run.len() as int;
    assert(one[1 + n] == 0x22);
    assert(other[1 + m] == 0x22);
    if n < m {
        assert(other[1 + n] == other_run[n]);
    } else if m < n {
        assert(one[1 + m] == run[m]);
    }
    assert(run =~= other_run) by {
        assert forall|i: int| 0 <= i < run.len() implies run[i] == other_run[i] by {
            assert(one[1 + i] == run[i]);
            assert(other[1 + i] == other_run[i]);
        }
    }
    assert(n == m);
    assert(one.len() == 2 + n + rest.len());
    assert(other.len() == 2 + m + other_rest.len());
    assert(rest.len() == other_rest.len());
    assert(rest =~= other_rest) by {
        assert forall|i: int| 0 <= i < rest.len() implies rest[i] == other_rest[i] by {
            assert(one[2 + n + i] == rest[i]);
            assert(other[2 + n + i] == other_rest[i]);
        }
    }
}

/// What the display text says of the layout tells the layout.
pub proof fn lemma_layout_bytes(one: Option<Seq<char>>, other: Option<Seq<char>>)
    requires
        layout_bytes(one) == layout_bytes(other),
    ensures
        one == other,
{
    reveal_strlit(" with layout '");
    let opening = ascii_bytes(" with layout '"@);
    match (one, other) {
        (Some(name), Some(other_name)) => {
            let a = encode_utf8(name);
            let b = encode_utf8(other_name);
            let x = opening + a + seq![0x27u8];
            let y = opening + b + seq![0x27u8];
            assert(a.len() == b.len()) by {
                assert(x.len() == y.len());
            }
            assert(a =~= b) by {
                assert forall|i: int| 0 <= i < a.len() implies a[i] == b[i] by {
                    assert(x[opening.len() + i] == a[i]);
                    assert(y[opening.len() + i] == b[i]);
                }
            }
            vstd::utf8::encode_utf8_decode_utf8(name);
            vstd::utf8::encode_utf8_decode_utf8(other_name);
        },
        (Some(name), None) => {
            assert(layout_bytes(one).len() > 0);
        },
        (None, Some(name)) => {
            assert(layout_bytes(other).len() > 0);
        },
        (None, None) => {},
    }
}

/// Different entries are shown differently: the display text tells the path
/// and the layout, so the way back from a shown text to its entry is
/// unambiguous.
pub proof fn lemma_display_text_is_unique(a: EntryView, b: EntryView)
    requires
        a != b,
    ensures
        a.display_text() != b.display_text(),
{
    if a.display_text() == b.display_text() {
        lemma_display_bytes(a);
        lemma_display_bytes(b);
        lemma_escaped_text(a.path);
        lemma_escaped_text(b.path);
        lemma_quoted_runs(
            escaped_path(a.path),
            layout_bytes(a.layout),
            escaped_path(b.path),
            layout_bytes(b.layout),
        );
        lemma_layout_bytes(a.layout, b.layout);
        assert(a.path == b.path);
        assert(a == b);
    }
}

} // verus!
