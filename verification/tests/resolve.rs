use open_project::resolve::{resolve, resolve_from_output, LaunchDecision};
use open_project::session::{parse_zellij_ls, ListingError, ParseError, Rule, ZellijSession};

fn session(name: &str, exited: bool) -> ZellijSession {
    ZellijSession { name: name.to_string(), exited }
}

#[test]
fn absent_session_is_created() {
    let sessions = parse_zellij_ls("a [1x1]\nb [2x2] (current)\n").unwrap();
    assert_eq!(resolve("work", &sessions), LaunchDecision::Create("work".to_string()));
}

#[test]
fn alive_session_is_attached() {
    let plain = parse_zellij_ls("work [80x24]\n").unwrap();
    assert_eq!(resolve("work", &plain), LaunchDecision::Attach("work".to_string()));
    let current = parse_zellij_ls("work [80x24] (current)\n").unwrap();
    assert_eq!(resolve("work", &current), LaunchDecision::Attach("work".to_string()));
}

#[test]
fn exited_session_is_recreated() {
    let sessions = parse_zellij_ls("work [80x24] (EXITED - attach to resurrect)\n").unwrap();
    assert_eq!(resolve("work", &sessions), LaunchDecision::Recreate("work".to_string()));
}

#[test]
fn no_sessions_means_create() {
    assert_eq!(resolve("work", &vec![]), LaunchDecision::Create("work".to_string()));
}

#[test]
fn names_are_compared_exactly() {
    let sessions = vec![session("Work", false), session("work2", true), session("wor", true)];
    assert_eq!(resolve("work", &sessions), LaunchDecision::Create("work".to_string()));
}

#[test]
fn first_session_of_the_name_decides() {
    let sessions = vec![session("other", false), session("work", true), session("work", false)];
    assert_eq!(resolve("work", &sessions), LaunchDecision::Recreate("work".to_string()));
    let sessions = vec![session("work", false), session("work", true)];
    assert_eq!(resolve("work", &sessions), LaunchDecision::Attach("work".to_string()));
}

#[test]
fn decision_from_output() {
    assert_eq!(
        resolve_from_output("work", b"play [1x1]\nwork [80x24] (EXITED - attach to resurrect)\n"),
        Ok(LaunchDecision::Recreate("work".to_string()))
    );
    assert_eq!(
        resolve_from_output("work", b"play [1x1]\n"),
        Ok(LaunchDecision::Create("work".to_string()))
    );
    assert_eq!(resolve_from_output("work", b""), Ok(LaunchDecision::Create("work".to_string())));
}

#[test]
fn malformed_output_gives_no_decision() {
    assert_eq!(
        resolve_from_output("work", b"work [80x24]\n???\n"),
        Err(ListingError::Parse(ParseError {
            offset: 13,
            context: vec![Rule::SessionList, Rule::SessionEntry, Rule::SessionName],
        }))
    );
    assert_eq!(resolve_from_output("work", b"work [80x24]\n\xfe"), Err(ListingError::Encoding));
}
