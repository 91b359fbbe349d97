use open_project::session::{parse_zellij_ls, ZellijSession};
use winnow::ascii::{alphanumeric1, line_ending, multispace1, space0};
use winnow::combinator::{alt, delimited, empty, opt, repeat, separated};
use winnow::token::literal;
use winnow::{PResult, Parser};

fn name(input: &mut &str) -> PResult<String> {
    repeat(1.., alt((alphanumeric1, literal("-"), literal("_"))))
        .map(|text: Vec<&str>| text.join(""))
        .parse_next(input)
}

fn exited(input: &mut &str) -> PResult<bool> {
    alt((
        literal("EXITED - attach to resurrect").map(|_| true),
        literal("current").map(|_| false),
        empty.value(false),
    ))
    .parse_next(input)
}

fn dimensions(input: &mut &str) -> PResult<String> {
    repeat(.., alt((alphanumeric1, multispace1)))
        .map(|text: Vec<&str>| text.join(""))
        .parse_next(input)
}

fn entry(input: &mut &str) -> PResult<ZellijSession> {
    (
        name,
        ' ',
        delimited('[', dimensions, ']'),
        space0,
        opt(delimited('(', exited, ')')),
    )
        .map(|(name, _, _, _, status)| ZellijSession { name, exited: status.unwrap_or(false) })
        .parse_next(input)
}

fn list(input: &mut &str) -> PResult<Vec<ZellijSession>> {
    (separated(.., entry, line_ending), opt(line_ending))
        .map(|(sessions, _): (Vec<ZellijSession>, _)| sessions)
        .parse_next(input)
}

/// The sessions of `text` by the grammar written with combinators, where
/// the whole of `text` is a listing.
fn by_combinators(text: &str) -> Option<Vec<ZellijSession>> {
    list.parse(text).ok()
}

const PIECES: [&str; 14] = [
    "ab",
    "-",
    "_9",
    " ",
    "[",
    "]",
    "(",
    ")",
    "\n",
    "\r",
    "\t",
    "current",
    "EXITED - attach to resurrect",
    "!",
];

fn agree_on_all(prefix: &mut String, pieces_left: usize, checked: &mut usize, accepted: &mut usize) {
    let expected = by_combinators(prefix);
    assert_eq!(parse_zellij_ls(prefix).ok(), expected, "on {:?}", prefix);
    *checked += 1;
    if expected.is_some() {
        *accepted += 1;
    }
    if pieces_left == 0 {
        return;
    }
    for piece in PIECES {
        let len = prefix.len();
        prefix.push_str(piece);
        agree_on_all(prefix, pieces_left - 1, checked, accepted);
        prefix.truncate(len);
    }
}

#[test]
fn parser_and_combinators_agree_on_short_inputs() {
    let (mut checked, mut accepted) = (0, 0);
    agree_on_all(&mut String::new(), 5, &mut checked, &mut accepted);
    assert_eq!(checked, 1 + 14 + 196 + 2744 + 38416 + 537824);
    assert!(accepted > 2);
}

#[test]
fn parser_and_combinators_agree_on_entries_in_pieces() {
    let heads = ["a [", "a_-b [ 1 x\n2 ", "Z9 [\r"];
    for head in heads {
        let (mut checked, mut accepted) = (0, 0);
        agree_on_all(&mut String::from(head), 4, &mut checked, &mut accepted);
        assert!(accepted > 5, "after {:?}", head);
    }
}

#[test]
fn parser_and_combinators_agree_on_listings_in_pieces() {
    let heads = ["a []", "a [1] (current)", "b [x]\nc [y] ", "b [x] ()\r\n"];
    for head in heads {
        let (mut checked, mut accepted) = (0, 0);
        agree_on_all(&mut String::from(head), 4, &mut checked, &mut accepted);
        assert!(accepted >= 3, "after {:?}", head);
    }
}

#[test]
fn parser_and_combinators_agree_on_samples() {
    let samples = [
        "work [80x24]\n",
        "work [80x24] (current)\n",
        "work [80x24] (EXITED - attach to resurrect)\n",
        "a [1x1]\nb [2x2] (current)\n",
        "bad!name [1x1]\n",
        "a [Created 1h 2m ago] (EXITED - attach to resurrect)\r\nb [Created 3s ago]\r\n",
        "a [1]\n\n",
        "a [é]",
        "é [1]",
        "a [1](current)",
        "a [1] (current) (current)",
        "a  [1]",
        "a [1] ( current)",
        "a [1] (EXITED - attach to resurrect",
        "a [1] (EXITED - attach to resurrec)",
    ];
    for sample in samples {
        assert_eq!(parse_zellij_ls(sample).ok(), by_combinators(sample), "on {:?}", sample);
    }
}
