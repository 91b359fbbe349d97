use open_project::resolve::{resolve, LaunchDecision};
use open_project::session::ZellijSession;
use open_project::tmux::tmux_sessions;

fn alive(name: &str) -> ZellijSession {
    ZellijSession { name: name.to_string(), exited: false }
}

#[test]
fn each_line_names_a_session() {
    assert_eq!(tmux_sessions("work\nplay\n"), vec![alive("work"), alive("play")]);
    assert_eq!(tmux_sessions("work\nplay"), vec![alive("work"), alive("play")]);
}

#[test]
fn no_text_names_no_session() {
    assert_eq!(tmux_sessions(""), vec![]);
}

#[test]
fn white_space_around_a_name_is_taken_off() {
    assert_eq!(
        tmux_sessions("  work \t\r\n\u{a0}play\u{3000}\u{2003}\n"),
        vec![alive("work"), alive("play")]
    );
    assert_eq!(tmux_sessions("my work\n"), vec![alive("my work")]);
}

#[test]
fn blank_lines_name_the_empty_session() {
    assert_eq!(tmux_sessions("\n"), vec![alive("")]);
    assert_eq!(tmux_sessions("a\n\n \nb"), vec![alive("a"), alive(""), alive(""), alive("b")]);
}

#[test]
fn names_may_hold_any_other_character() {
    assert_eq!(tmux_sessions("zoë!\n0-日本\n"), vec![alive("zoë!"), alive("0-日本")]);
}

#[test]
fn lines_and_trimming_agree_with_the_standard_library() {
    let samples = [
        "",
        "\n",
        "\r\n",
        "a",
        "a\r\nb\r\n",
        " a \n\tb\t\n\n",
        "\u{85}a\u{2028}\n\u{1680}b\u{205f}",
        "a\rb\n",
        "\u{200b}a\n",
        "x\u{202f}\n\u{2029}y\n\r",
    ];
    for sample in samples {
        let expected: Vec<ZellijSession> = sample.lines().map(|line| alive(line.trim())).collect();
        assert_eq!(tmux_sessions(sample), expected, "on {:?}", sample);
    }
}

#[test]
fn a_listed_name_is_attached_and_another_created() {
    let sessions = tmux_sessions("work\nplay\n");
    assert_eq!(resolve("play", &sessions), LaunchDecision::Attach("play".to_string()));
    assert_eq!(resolve("rest", &sessions), LaunchDecision::Create("rest".to_string()));
}
