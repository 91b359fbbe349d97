//! The session listing that a multiplexer prints, and its parser.
//!
//! The listing is free text, one session per line:
//!
//! ```text
//! session-list   := (session-entry (line-ending session-entry)*)? line-ending?
//! session-entry  := session-name ' ' '[' dimensions ']' space* status?
//! session-name   := (alphanumeric | '-' | '_')+
//! dimensions     := (alphanumeric | whitespace)*
//! status         := '(' status-word ')'
//! status-word    := "EXITED - attach to resurrect" | "current" | <absent>
//! ```
//!
//! [`listing`] gives the meaning of a whole input under this grammar: the
//! sessions it lists, or the place and the rules at which it stops being a
//! listing. [`parse_zellij_ls`] computes exactly that.

use vstd::prelude::*;
use vstd::slice::slice_subrange;
use vstd::utf8::{encode_utf8, is_ascii_chars, valid_utf8};
use crate::text::{ascii_bytes, ascii_string, ascii_text, lemma_ascii_encodes, utf8_text};

verus! {

/// One session of a listing.
#[derive(Debug, PartialEq, Eq)]
pub struct ZellijSession {
    pub name: String,
    pub exited: bool,
}

/// Mathematical value of a [`ZellijSession`].
pub struct SessionView {
    pub name: Seq<char>,
    pub exited: bool,
}

impl View for ZellijSession {
    type V = SessionView;

    open spec fn view(&self) -> SessionView {
        SessionView { name: self.name@, exited: self.exited }
    }
}

impl Clone for ZellijSession {
    fn clone(&self) -> (copy: ZellijSession)
        ensures
            copy@ == self@,
    {
        ZellijSession { name: self.name.clone(), exited: self.exited }
    }
}

/// The values of the sessions of a parsed listing, in order.
pub open spec fn sessions_view(sessions: Seq<ZellijSession>) -> Seq<SessionView> {
    Seq::new(sessions.len(), |i: int| sessions[i]@)
}

/// What the status of a listed session says about it.
#[derive(Clone, Copy, PartialEq, Eq, Debug)]
pub enum Status {
    /// The session has exited and can be resurrected.
    Exited,
    /// Anything else: the current session, or no status word at all.
    Else,
}

impl Status {
    /// Whether the session is gone.
    pub fn is_exited(&self) -> (gone: bool)
        ensures
            gone == (*self == Status::Exited),
    {
        match self {
            Status::Exited => true,
            Status::Else => false,
        }
    }
}

/// A labelled rule of the grammar.
#[derive(Clone, Copy, PartialEq, Eq, Debug)]
pub enum Rule {
    SessionList,
    SessionEntry,
    SessionName,
    SessionStatus,
}

impl Rule {
    /// The rule's label as shown to the user.
    pub open spec fn label_text(self) -> Seq<char> {
        match self {
            Rule::SessionList => "session list"@,
            Rule::SessionEntry => "session entry"@,
            Rule::SessionName => "session name"@,
            Rule::SessionStatus => "session status"@,
        }
    }

    /// The rules that are active inside this one, outermost first and ending
    /// with the rule itself.
    pub open spec fn trail(self) -> Seq<Rule> {
        match self {
            Rule::SessionList => seq![Rule::SessionList],
            Rule::SessionEntry => seq![Rule::SessionList, Rule::SessionEntry],
            Rule::SessionName => seq![Rule::SessionList, Rule::SessionEntry, Rule::SessionName],
            Rule::SessionStatus => seq![
                Rule::SessionList,
                Rule::SessionEntry,
                Rule::SessionStatus,
            ],
        }
    }

    /// The rule's label as shown to the user.
    pub fn label(&self) -> (text: &'static str)
        ensures
            text@ == self.label_text(),
    {
        match self {
            Rule::SessionList => "session list",
            Rule::SessionEntry => "session entry",
            Rule::SessionName => "session name",
            Rule::SessionStatus => "session status",
        }
    }

    fn to_trail(self) -> (rules: Vec<Rule>)
        ensures
            rules@ == self.trail(),
    {
        let mut rules = Vec::new();
        rules.push(Rule::SessionList);
        match self {
            Rule::SessionList => {},
            Rule::SessionEntry => {
                rules.push(Rule::SessionEntry);
            },
            Rule::SessionName => {
                rules.push(Rule::SessionEntry);
                rules.push(Rule::SessionName);
            },
            Rule::SessionStatus => {
                rules.push(Rule::SessionEntry);
                rules.push(Rule::SessionStatus);
            },
        }
        assert(rules@ =~= self.trail());
        rules
    }
}

/// Where and why an input is not a listing: the offset of the first byte that
/// no rule accepts, and the rules that were active there, outermost first.
pub struct Failure {
    pub offset: int,
    pub context: Seq<Rule>,
}

/// The failure at `offset` with `rule` as the innermost active rule.
pub open spec fn failure_in(rule: Rule, offset: int) -> Failure {
    Failure { offset, context: rule.trail() }
}

/// A listing that violates the grammar.
#[derive(Clone, Debug, PartialEq, Eq)]
pub struct ParseError {
    /// Offset in bytes of the first byte that no rule accepts.
    pub offset: usize,
    /// The rules active at that offset, outermost first.
    pub context: Vec<Rule>,
}

impl View for ParseError {
    type V = Failure;

    open spec fn view(&self) -> Failure {
        Failure { offset: self.offset as int, context: self.context@ }
    }
}

impl ParseError {
    fn inside(rule: Rule, offset: usize) -> (error: ParseError)
        ensures
            error@ == failure_in(rule, offset as int),
    {
        ParseError { offset, context: rule.to_trail() }
    }
}

/// The sets of bytes that the grammar repeats.
#[derive(Clone, Copy, PartialEq, Eq, Debug)]
pub enum ByteClass {
    /// Bytes of a session name: ASCII letters and digits, `-` and `_`.
    Name,
    /// Bytes between the brackets: ASCII letters and digits, and whitespace.
    Dimensions,
    /// Blanks before the status: space and tab.
    Blank,
}

/// Whether `byte` is an ASCII letter or digit.
pub open spec fn is_alphanumeric(byte: u8) -> bool {
    ||| 0x30 <= byte <= 0x39
    ||| 0x41 <= byte <= 0x5a
    ||| 0x61 <= byte <= 0x7a
}

impl ByteClass {
    /// Whether `byte` belongs to the class.
    pub open spec fn holds(self, byte: u8) -> bool {
        match self {
            ByteClass::Name => is_alphanumeric(byte) || byte == 0x2d || byte == 0x5f,
            ByteClass::Dimensions => is_alphanumeric(byte) || byte == 0x20 || byte == 0x09
                || byte == 0x0a || byte == 0x0d,
            ByteClass::Blank => byte == 0x20 || byte == 0x09,
        }
    }

    /// Whether `byte` belongs to the class.
    pub fn contains(self, byte: u8) -> (member: bool)
        ensures
            member == self.holds(byte),
    {
        let alphanumeric = (0x30 <= byte && byte <= 0x39) || (0x41 <= byte && byte <= 0x5a) || (0x61
            <= byte && byte <= 0x7a);
        match self {
            ByteClass::Name => alphanumeric || byte == 0x2d || byte == 0x5f,
            ByteClass::Dimensions => alphanumeric || byte == 0x20 || byte == 0x09 || byte == 0x0a
                || byte == 0x0d,
            ByteClass::Blank => byte == 0x20 || byte == 0x09,
        }
    }
}

/// The end of the longest run of bytes of `class` that starts at `from`.
pub open spec fn run_end(s: Seq<u8>, from: int, class: ByteClass) -> int
    decreases s.len() - from,
{
    if 0 <= from < s.len() && class.holds(s[from]) {
        run_end(s, from + 1, class)
    } else {
        from
    }
}

/// Whether the byte at `at` exists and is `byte`.
pub open spec fn byte_is(s: Seq<u8>, at: int, byte: u8) -> bool {
    0 <= at < s.len() && s[at] == byte
}

/// Whether `word` stands in `s` at `at`.
pub open spec fn word_at(s: Seq<u8>, at: int, word: Seq<u8>) -> bool {
    &&& 0 <= at
    &&& at + word.len() <= s.len()
    &&& s.subrange(at, at + word.len()) == word
}

/// The status word of a session that has exited.
pub open spec fn exited_word() -> Seq<u8> {
    ascii_bytes("EXITED - attach to resurrect"@)
}

/// The status word of the session that the listing was asked from.
pub open spec fn current_word() -> Seq<u8> {
    ascii_bytes("current"@)
}

/// The length of the line ending at `at`: 1 for a line feed, 2 for a carriage
/// return and a line feed, 0 where there is neither.
pub open spec fn line_ending_len(s: Seq<u8>, at: int) -> int {
    if byte_is(s, at, 0x0a) {
        1
    } else if byte_is(s, at, 0x0d) && byte_is(s, at + 1, 0x0a) {
        2
    } else {
        0
    }
}

/// The status word that stands at `at`, and where it ends. The empty word is
/// a status word too.
pub open spec fn status_word_at(s: Seq<u8>, at: int) -> (Status, int) {
    if word_at(s, at, exited_word()) {
        (Status::Exited, at + exited_word().len())
    } else if word_at(s, at, current_word()) {
        (Status::Else, at + current_word().len())
    } else {
        (Status::Else, at)
    }
}

/// The session entry that starts at `at`, with the offset just behind it, or
/// the failure that stops it.
pub open spec fn entry_at(s: Seq<u8>, at: int) -> Result<(SessionView, int), Failure> {
    let name_end = run_end(s, at, ByteClass::Name);
    let dimensions_end = run_end(s, name_end + 2, ByteClass::Dimensions);
    let blank_end = run_end(s, dimensions_end + 1, ByteClass::Blank);
    let (status, word_end) = status_word_at(s, blank_end + 1);
    let name = ascii_text(s.subrange(at, name_end));
    if name_end == at {
        Err(failure_in(Rule::SessionName, at))
    } else if !byte_is(s, name_end, 0x20) {
        Err(failure_in(Rule::SessionEntry, name_end))
    } else if !byte_is(s, name_end + 1, 0x5b) {
        Err(failure_in(Rule::SessionEntry, name_end + 1))
    } else if !byte_is(s, dimensions_end, 0x5d) {
        Err(failure_in(Rule::SessionEntry, dimensions_end))
    } else if !byte_is(s, blank_end, 0x28) {
        Ok((SessionView { name, exited: false }, blank_end))
    } else if !byte_is(s, word_end, 0x29) {
        Err(failure_in(Rule::SessionStatus, word_end))
    } else {
        Ok((SessionView { name, exited: status == Status::Exited }, word_end + 1))
    }
}

/// `found` followed by what `rest` holds, or the failure of `rest`.
pub open spec fn after(found: Seq<SessionView>, rest: Result<Seq<SessionView>, Failure>) -> Result<
    Seq<SessionView>,
    Failure,
> {
    match rest {
        Ok(more) => Ok(found + more),
        Err(failure) => Err(failure),
    }
}

/// The sessions listed from `at` on, where an entry must start at `at`.
pub open spec fn entries_from(s: Seq<u8>, at: int) -> Result<Seq<SessionView>, Failure>
    decreases s.len() - at,
{
    match entry_at(s, at) {
        Err(failure) => Err(failure),
        Ok((session, end)) => {
            let next = end + line_ending_len(s, end);
            if end >= s.len() || end <= at {
                Ok(seq![session])
            } else if next == end {
                Err(failure_in(Rule::SessionList, end))
            } else if next >= s.len() {
                Ok(seq![session])
            } else {
                after(seq![session], entries_from(s, next))
            }
        },
    }
}

/// The meaning of a whole input: the sessions it lists, in order, or the
/// failure at the first byte that the grammar does not accept.
///
/// The empty input and a lone line ending list no session. After the last
/// entry one line ending may follow, and nothing else.
pub open spec fn listing(s: Seq<u8>) -> Result<Seq<SessionView>, Failure> {
    if s.len() == 0 || line_ending_len(s, 0) == s.len() {
        Ok(Seq::empty())
    } else {
        entries_from(s, 0)
    }
}

/// The value of a parser's result.
pub open spec fn listing_result_view(result: Result<Vec<ZellijSession>, ParseError>) -> Result<
    Seq<SessionView>,
    Failure,
> {
    match result {
        Ok(sessions) => Ok(sessions_view(sessions@)),
        Err(error) => Err(error@),
    }
}

/// A run of a class ends inside the input, holds only bytes of the class, and
/// is not followed by one.
pub proof fn lemma_run_end(s: Seq<u8>, from: int, class: ByteClass)
    requires
        0 <= from <= s.len(),
    ensures
        from <= run_end(s, from, class) <= s.len(),
        forall|i: int| from <= i < run_end(s, from, class) ==> class.holds(#[trigger] s[i]),
        run_end(s, from, class) < s.len() ==> !class.holds(s[run_end(s, from, class)]),
    decreases s.len() - from,
{
    if from < s.len() && class.holds(s[from]) {
        lemma_run_end(s, from + 1, class);
    }
}

/// A session entry is never empty and ends inside the input.
pub proof fn lemma_entry_bounds(s: Seq<u8>, at: int)
    requires
        0 <= at <= s.len(),
    ensures
        entry_at(s, at) matches Ok((_, end)) ==> at < end <= s.len(),
        entry_at(s, at) matches Err(failure) ==> at <= failure.offset <= s.len(),
{
    let name_end = run_end(s, at, ByteClass::Name);
    lemma_run_end(s, at, ByteClass::Name);
    if name_end + 2 <= s.len() {
        let dimensions_end = run_end(s, name_end + 2, ByteClass::Dimensions);
        lemma_run_end(s, name_end + 2, ByteClass::Dimensions);
        if dimensions_end + 1 <= s.len() {
            let blank_end = run_end(s, dimensions_end + 1, ByteClass::Blank);
            lemma_run_end(s, dimensions_end + 1, ByteClass::Blank);
        }
    }
}

/// Whether `failure` names a place in `s` and the rules of the grammar that
/// were active there: an offset inside the input or at its end, and the
/// trail of one of the rules, which begins with the list.
pub open spec fn failure_in_input(failure: Failure, s: Seq<u8>) -> bool {
    &&& 0 <= failure.offset <= s.len()
    &&& failure.context.len() >= 1
    &&& failure.context[0] == Rule::SessionList
    &&& exists|rule: Rule| failure.context == #[trigger] rule.trail()
}

/// A list of entries fails at a place in the input, under rules that begin
/// with the list.
pub proof fn lemma_entries_failure(s: Seq<u8>, at: int)
    requires
        0 <= at <= s.len(),
    ensures
        entries_from(s, at) matches Err(failure) ==> at <= failure.offset && failure_in_input(
            failure,
            s,
        ),
    decreases s.len() - at,
{
    lemma_entry_bounds(s, at);
    match entry_at(s, at) {
        Err(failure) => {
            assert(failure.context == Rule::SessionName.trail() || failure.context
                == Rule::SessionEntry.trail() || failure.context == Rule::SessionStatus.trail());
        },
        Ok((_, end)) => {
            let next = end + line_ending_len(s, end);
            if end < s.len() && next == end {
                assert(failure_in(Rule::SessionList, end).context == Rule::SessionList.trail());
            } else if end < s.len() && next < s.len() {
                lemma_entries_failure(s, next);
            }
        },
    }
}

/// Where an input is no listing, the failure lies in the input: its offset
/// is at most the length of the input, and its rules begin with the list.
pub proof fn lemma_listing_failure(s: Seq<u8>)
    ensures
        listing(s) matches Err(failure) ==> failure_in_input(failure, s),
{
    lemma_entries_failure(s, 0);
}

fn scan_run(bytes: &[u8], from: usize, class: ByteClass) -> (end: usize)
    requires
        from <= bytes@.len(),
    ensures
        end == run_end(bytes@, from as int, class),
        from <= end <= bytes@.len(),
{
    let mut at = from;
    while at < bytes.len() && class.contains(bytes[at])
        invariant
            from <= at <= bytes@.len(),
            run_end(bytes@, from as int, class) == run_end(bytes@, at as int, class),
        decreases bytes@.len() - at,
    {
        at += 1;
    }
    at
}

fn holds_byte(bytes: &[u8], at: usize, byte: u8) -> (found: bool)
    ensures
        found == byte_is(bytes@, at as int, byte),
{
    at < bytes.len() && bytes[at] == byte
}

fn holds_word(bytes: &[u8], at: usize, word: &str) -> (found: bool)
    requires
        is_ascii_chars(word@),
    ensures
        found == word_at(bytes@, at as int, ascii_bytes(word@)),
{
    let letters = word.as_bytes();
    proof {
        lemma_ascii_encodes(word@);
    }
    if at > bytes.len() || letters.len() > bytes.len() - at {
        return false;
    }
    let mut i: usize = 0;
    while i < letters.len()
        invariant
            i <= letters@.len(),
            at + letters@.len() <= bytes@.len() <= usize::MAX,
            letters@ == ascii_bytes(word@),
            forall|k: int| 0 <= k < i ==> bytes@[at + k] == letters@[k],
        decreases letters@.len() - i,
    {
        if bytes[at + i] != letters[i] {
            proof {
                let part = bytes@.subrange(at as int, at + letters@.len());
                assert(part[i as int] == bytes@[at + i]);
            }
            return false;
        }
        i += 1;
    }
    assert(bytes@.subrange(at as int, at + letters@.len()) =~= letters@);
    true
}

fn measure_line_ending(bytes: &[u8], at: usize) -> (len: usize)
    requires
        at <= bytes@.len(),
    ensures
        len == line_ending_len(bytes@, at as int),
        at + len <= bytes@.len(),
{
    let len = bytes.len();
    if holds_byte(bytes, at, 0x0a) {
        1
    } else if at < len && holds_byte(bytes, at, 0x0d) && holds_byte(bytes, at + 1, 0x0a) {
        2
    } else {
        0
    }
}

fn read_status_word(bytes: &[u8], at: usize) -> (found: (Status, usize))
    requires
        at <= bytes@.len(),
    ensures
        found.0 == status_word_at(bytes@, at as int).0,
        found.1 == status_word_at(bytes@, at as int).1,
        at <= found.1 <= bytes@.len(),
{
    let len = bytes.len();
    proof {
        reveal_strlit("EXITED - attach to resurrect");
        reveal_strlit("current");
    }
    if holds_word(bytes, at, "EXITED - attach to resurrect") {
        (Status::Exited, at + 28)
    } else if holds_word(bytes, at, "current") {
        (Status::Else, at + 7)
    } else {
        (Status::Else, at)
    }
}

/// The value of the result of parsing one entry.
pub open spec fn entry_result_view(result: Result<(ZellijSession, usize), ParseError>) -> Result<
    (SessionView, int),
    Failure,
> {
    match result {
        Ok((session, end)) => Ok((session@, end as int)),
        Err(error) => Err(error@),
    }
}

fn parse_entry(bytes: &[u8], at: usize) -> (result: Result<(ZellijSession, usize), ParseError>)
    requires
        at <= bytes@.len(),
    ensures
        entry_result_view(result) == entry_at(bytes@, at as int),
{
    let len = bytes.len();
    let name_end = scan_run(bytes, at, ByteClass::Name);
    if name_end == at {
        return Err(ParseError::inside(Rule::SessionName, at));
    }
    if !holds_byte(bytes, name_end, 0x20) {
        return Err(ParseError::inside(Rule::SessionEntry, name_end));
    }
    if !holds_byte(bytes, name_end + 1, 0x5b) {
        return Err(ParseError::inside(Rule::SessionEntry, name_end + 1));
    }
    let dimensions_end = scan_run(bytes, name_end + 2, ByteClass::Dimensions);
    if !holds_byte(bytes, dimensions_end, 0x5d) {
        return Err(ParseError::inside(Rule::SessionEntry, dimensions_end));
    }
    let blank_end = scan_run(bytes, dimensions_end + 1, ByteClass::Blank);
    proof {
        lemma_run_end(bytes@, at as int, ByteClass::Name);
        assert forall|i: int| 0 <= i < name_end - at implies #[trigger] bytes@.subrange(
            at as int,
            name_end as int,
        )[i] < 128 by {
            assert(ByteClass::Name.holds(bytes@[at + i]));
        }
    }
    let name = ascii_string(slice_subrange(bytes, at, name_end));
    if !holds_byte(bytes, blank_end, 0x28) {
        return Ok((ZellijSession { name, exited: false }, blank_end));
    }
    let (status, word_end) = read_status_word(bytes, blank_end + 1);
    if !holds_byte(bytes, word_end, 0x29) {
        return Err(ParseError::inside(Rule::SessionStatus, word_end));
    }
    Ok((ZellijSession { name, exited: status.is_exited() }, word_end + 1))
}

/// Parses the listing that `bytes` hold.
pub fn parse_sessions(bytes: &[u8]) -> (result: Result<Vec<ZellijSession>, ParseError>)
    ensures
        listing_result_view(result) == listing(bytes@),
{
    let len = bytes.len();
    let mut sessions: Vec<ZellijSession> = Vec::new();
    if len == 0 || measure_line_ending(bytes, 0) == len {
        assert(sessions_view(sessions@) =~= Seq::empty());
        return Ok(sessions);
    }
    let mut at: usize = 0;
    loop
        invariant
            at < len,
            len == bytes@.len(),
            listing(bytes@) == after(sessions_view(sessions@), entries_from(bytes@, at as int)),
        decreases len - at,
    {
        proof {
            lemma_entry_bounds(bytes@, at as int);
        }
        let ghost found = sessions_view(sessions@);
        match parse_entry(bytes, at) {
            Err(error) => {
                return Err(error);
            },
            Ok((session, end)) => {
                sessions.push(session);
                assert(sessions_view(sessions@) =~= found + seq![session@]);
                if end == len {
                    return Ok(sessions);
                }
                let skip = measure_line_ending(bytes, end);
                if skip == 0 {
                    return Err(ParseError::inside(Rule::SessionList, end));
                }
                if end + skip == len {
                    return Ok(sessions);
                }
                proof {
                    let rest = entries_from(bytes@, end + skip);
                    assert(after(found, after(seq![session@], rest)) == after(
                        found + seq![session@],
                        rest,
                    )) by {
                        if let Ok(more) = rest {
                            assert(found + (seq![session@] + more) =~= (found + seq![session@])
                                + more);
                        }
                    }
                }
                at = end + skip;
            },
        }
    }
}

/// Parses the listing that a multiplexer printed: the sessions, in the
/// order in which they are listed, or the failure at the first byte that the
/// grammar does not accept. Nothing is skipped: a listing with one bad line
/// is no listing.
pub fn parse_zellij_ls(input: &str) -> (result: Result<Vec<ZellijSession>, ParseError>)
    ensures
        listing_result_view(result) == listing(encode_utf8(input@)),
{
    parse_sessions(input.as_bytes())
}

/// Why the output of a listing command gave no sessions.
#[derive(Clone, Debug, PartialEq, Eq)]
pub enum ListingError {
    /// The output is not valid UTF-8.
    Encoding,
    /// The output is text, but no listing.
    Parse(ParseError),
}

/// Mathematical value of a [`ListingError`].
pub enum ListingFault {
    Encoding,
    Parse(Failure),
}

impl View for ListingError {
    type V = ListingFault;

    open spec fn view(&self) -> ListingFault {
        match self {
            ListingError::Encoding => ListingFault::Encoding,
            ListingError::Parse(error) => ListingFault::Parse(error@),
        }
    }
}

/// The meaning of the raw output of a listing command: output that is not
/// valid UTF-8 is refused as a whole, other output is read as a listing.
pub open spec fn listing_of_output(output: Seq<u8>) -> Result<Seq<SessionView>, ListingFault> {
    if !valid_utf8(output) {
        Err(ListingFault::Encoding)
    } else {
        match listing(output) {
            Ok(sessions) => Ok(sessions),
            Err(failure) => Err(ListingFault::Parse(failure)),
        }
    }
}

/// The value of the result of reading a command's output.
pub open spec fn output_result_view(result: Result<Vec<ZellijSession>, ListingError>) -> Result<
    Seq<SessionView>,
    ListingFault,
> {
    match result {
        Ok(sessions) => Ok(sessions_view(sessions@)),
        Err(error) => Err(error@),
    }
}

/// Reads the captured output of a listing command. The output has to be
/// UTF-8 text and a listing; an offset in a parse error counts bytes of
/// `output`.
pub fn parse_listing_output(output: &[u8]) -> (result: Result<Vec<ZellijSession>, ListingError>)
    ensures
        output_result_view(result) == listing_of_output(output@),
{
    match utf8_text(output) {
        None => Err(ListingError::Encoding),
        Some(text) => {
            proof {
                vstd::utf8::decode_utf8_encode_utf8(output@);
            }
            match parse_zellij_ls(text) {
                Ok(sessions) => Ok(sessions),
                Err(error) => Err(ListingError::Parse(error)),
            }
        },
    }
}

} // verus!
