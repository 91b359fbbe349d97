use open_project::session::{
    parse_listing_output, parse_zellij_ls, ListingError, ParseError, Rule, ZellijSession,
};

fn session(name: &str, exited: bool) -> ZellijSession {
    ZellijSession { name: name.to_string(), exited }
}

fn failure(offset: usize, context: Vec<Rule>) -> ParseError {
    ParseError { offset, context }
}

#[test]
fn entry_without_status_is_alive() {
    assert_eq!(parse_zellij_ls("work [80x24]\n"), Ok(vec![session("work", false)]));
}

#[test]
fn current_session_is_alive() {
    assert_eq!(parse_zellij_ls("work [80x24] (current)\n"), Ok(vec![session("work", false)]));
}

#[test]
fn exited_session_is_marked() {
    assert_eq!(
        parse_zellij_ls("work [80x24] (EXITED - attach to resurrect)\n"),
        Ok(vec![session("work", true)])
    );
}

#[test]
fn entries_keep_the_order_of_the_input() {
    assert_eq!(
        parse_zellij_ls("a [1x1]\nb [2x2] (current)\n"),
        Ok(vec![session("a", false), session("b", false)])
    );
}

#[test]
fn name_with_a_forbidden_character_fails() {
    assert_eq!(
        parse_zellij_ls("bad!name [1x1]\n"),
        Err(failure(3, vec![Rule::SessionList, Rule::SessionEntry]))
    );
}

#[test]
fn empty_input_lists_nothing() {
    assert_eq!(parse_zellij_ls(""), Ok(vec![]));
}

#[test]
fn lone_line_ending_lists_nothing() {
    assert_eq!(parse_zellij_ls("\n"), Ok(vec![]));
    assert_eq!(parse_zellij_ls("\r\n"), Ok(vec![]));
}

#[test]
fn trailing_line_ending_is_optional() {
    assert_eq!(parse_zellij_ls("a [1x1]"), Ok(vec![session("a", false)]));
    assert_eq!(parse_zellij_ls("a [1x1]\r\n"), Ok(vec![session("a", false)]));
    assert_eq!(parse_zellij_ls("a [1x1]\r\nb []"), Ok(vec![session("a", false), session("b", false)]));
}

#[test]
fn second_trailing_line_ending_fails() {
    assert_eq!(
        parse_zellij_ls("a [1x1]\n\n"),
        Err(failure(8, vec![Rule::SessionList, Rule::SessionEntry, Rule::SessionName]))
    );
}

#[test]
fn leading_blank_line_fails() {
    assert_eq!(
        parse_zellij_ls("\na [1x1]\n"),
        Err(failure(0, vec![Rule::SessionList, Rule::SessionEntry, Rule::SessionName]))
    );
}

#[test]
fn bad_line_in_the_middle_fails_the_whole_listing() {
    assert_eq!(
        parse_zellij_ls("a [1x1]\nbad!name [1x1]\nc [1x1]\n"),
        Err(failure(11, vec![Rule::SessionList, Rule::SessionEntry]))
    );
}

#[test]
fn name_may_hold_dashes_and_underscores() {
    assert_eq!(parse_zellij_ls("my-proj_2 [80x24]"), Ok(vec![session("my-proj_2", false)]));
}

#[test]
fn missing_bracket_fails_inside_the_entry() {
    assert_eq!(
        parse_zellij_ls("work 80x24\n"),
        Err(failure(5, vec![Rule::SessionList, Rule::SessionEntry]))
    );
    assert_eq!(parse_zellij_ls("work"), Err(failure(4, vec![Rule::SessionList, Rule::SessionEntry])));
}

#[test]
fn unclosed_bracket_fails_where_the_dimensions_end() {
    assert_eq!(
        parse_zellij_ls("work [80x24"),
        Err(failure(11, vec![Rule::SessionList, Rule::SessionEntry]))
    );
    assert_eq!(
        parse_zellij_ls("work [80*24]"),
        Err(failure(8, vec![Rule::SessionList, Rule::SessionEntry]))
    );
}

#[test]
fn dimensions_are_opaque_and_may_span_lines() {
    assert_eq!(
        parse_zellij_ls("work [Created 3h 2m\tago\r\n more]  \t(current)"),
        Ok(vec![session("work", false)])
    );
}

#[test]
fn empty_status_word_is_alive() {
    assert_eq!(parse_zellij_ls("work [80x24] ()\n"), Ok(vec![session("work", false)]));
}

#[test]
fn unknown_status_word_fails_inside_the_status() {
    assert_eq!(
        parse_zellij_ls("work [80x24] (detached)\n"),
        Err(failure(14, vec![Rule::SessionList, Rule::SessionEntry, Rule::SessionStatus]))
    );
    assert_eq!(
        parse_zellij_ls("work [80x24] (currently)\n"),
        Err(failure(21, vec![Rule::SessionList, Rule::SessionEntry, Rule::SessionStatus]))
    );
    assert_eq!(
        parse_zellij_ls("work [80x24] (current"),
        Err(failure(21, vec![Rule::SessionList, Rule::SessionEntry, Rule::SessionStatus]))
    );
}

#[test]
fn text_after_an_entry_fails_in_the_list() {
    assert_eq!(parse_zellij_ls("work [80x24] x\n"), Err(failure(13, vec![Rule::SessionList])));
    assert_eq!(
        parse_zellij_ls("work [80x24] (current) \n"),
        Err(failure(22, vec![Rule::SessionList]))
    );
    assert_eq!(parse_zellij_ls("work [80x24]\rnext [1]"), Err(failure(12, vec![Rule::SessionList])));
}

#[test]
fn offset_counts_bytes_not_characters() {
    assert_eq!(
        parse_zellij_ls("a [1x1]\nb [é]\n"),
        Err(failure(11, vec![Rule::SessionList, Rule::SessionEntry]))
    );
    assert_eq!(
        parse_zellij_ls("a [1x1] (current)\nnaïve [1x1]\n"),
        Err(failure(20, vec![Rule::SessionList, Rule::SessionEntry]))
    );
}

#[test]
fn rules_have_labels() {
    assert_eq!(Rule::SessionList.label(), "session list");
    assert_eq!(Rule::SessionEntry.label(), "session entry");
    assert_eq!(Rule::SessionName.label(), "session name");
    assert_eq!(Rule::SessionStatus.label(), "session status");
}

#[test]
fn output_that_is_not_utf8_is_refused() {
    assert_eq!(parse_listing_output(b"work [80x24]\n\xff"), Err(ListingError::Encoding));
    assert_eq!(parse_listing_output(b"\xc3"), Err(ListingError::Encoding));
}

#[test]
fn output_that_is_text_is_parsed() {
    assert_eq!(
        parse_listing_output(b"work [80x24] (EXITED - attach to resurrect)\nplay [1x1]\n"),
        Ok(vec![session("work", true), session("play", false)])
    );
    assert_eq!(
        parse_listing_output("b [é]".as_bytes()),
        Err(ListingError::Parse(failure(3, vec![Rule::SessionList, Rule::SessionEntry])))
    );
}
