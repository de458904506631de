use flw::watch::{choose_explanation, needs_redraw, pane_needs_redraw, read_step, Drawn, ReadOutcome};
use flw::explainshell::{Explanation, Match};
use flw::tui::{cache_status, pane_frame, render_list, ListKey, ListState, TracedCommand};

fn explanation() -> Explanation {
    Explanation {
        command: "ls -la".to_string(),
        formatted_command: Some("ls -la".to_string()),
        error: None,
        matches: vec![
            Match { index: 0, source: "ls".to_string(), explanation: "x".to_string(), start: 0, end: 2 },
            Match { index: 1, source: "-la".to_string(), explanation: "y".to_string(), start: 3, end: 6 },
        ],
    }
}

#[test]
fn keys_move_between_matches_and_expand() {
    let mut s = ListState::new();
    assert!(!s.handle_key(ListKey::Right, 3, 2, usize::MAX, 10));
    assert_eq!(s.active_match_idx, Some(0));
    assert!(!s.handle_key(ListKey::Right, 3, 2, usize::MAX, 10));
    assert_eq!(s.active_match_idx, Some(1));
    assert!(!s.handle_key(ListKey::Right, 3, 2, usize::MAX, 10));
    assert_eq!(s.active_match_idx, Some(1));
    assert!(!s.handle_key(ListKey::Enter, 3, 2, usize::MAX, 10));
    assert_eq!(s.expanded_match_idx, Some(1));
    assert!(!s.handle_key(ListKey::Down, 3, 2, 1, 10));
    assert!(!s.handle_key(ListKey::Down, 3, 2, 1, 10));
    assert_eq!(s.expanded_scroll, 1);
    assert!(!s.handle_key(ListKey::Esc, 3, 2, 1, 10));
    assert_eq!(s.expanded_match_idx, None);
    assert_eq!(s.active_match_idx, Some(1));
    assert!(!s.handle_key(ListKey::Left, 3, 2, 1, 10));
    assert!(!s.handle_key(ListKey::Left, 3, 2, 1, 10));
    assert_eq!(s.active_match_idx, None);
    assert!(s.handle_key(ListKey::Esc, 3, 2, 1, 10));
    assert!(s.handle_key(ListKey::Quit, 3, 2, 1, 10));
}

#[test]
fn keys_move_selection_and_follow() {
    let mut s = ListState::new();
    s.follow_new_commands(5, 3);
    assert_eq!((s.selected, s.scroll), (4, 2));
    assert!(!s.handle_key(ListKey::Up, 5, 0, 0, 3));
    assert_eq!(s.selected, 3);
    assert!(!s.follow);
    s.follow_new_commands(6, 3);
    assert_eq!(s.selected, 3);
    assert!(!s.handle_key(ListKey::Down, 6, 0, 0, 3));
    assert!(!s.handle_key(ListKey::Down, 6, 0, 0, 3));
    assert_eq!(s.selected, 5);
    assert!(s.follow);
    s.scroll = 0;
    s.keep_selected_visible(6, 10);
    assert_eq!(s.scroll, 0);
    s.keep_selected_visible(6, 4);
    assert_eq!(s.scroll, 3);
}

#[test]
fn expanded_scroll_is_clamped() {
    let mut s = ListState::new();
    assert!(!s.handle_key(ListKey::Enter, 1, 1, 0, 10));
    s.expanded_scroll = 9;
    s.clamp_expanded_scroll(Some(4));
    assert_eq!(s.expanded_scroll, 4);
    s.clamp_expanded_scroll(None);
    assert_eq!(s.expanded_scroll, 4);
}

#[test]
fn list_screen_rows() {
    let cmds = vec![
        TracedCommand { id: 1, text: "ls -la".to_string(), status: Some(0) },
        TracedCommand { id: 2, text: "false".to_string(), status: Some(1) },
    ];
    let e = explanation();
    let out = render_list(&cmds, 0, 0, &e, Some(1), 40, 5);
    assert!(out.starts_with("\x1b[?25l\x1b[2J\x1b[3J\x1b[1;1H"));
    assert!(out.contains("2 commands"));
    assert!(out.contains("\x1b[3;1H\x1b[48;5;236m  \x1b[38;5;119;1m●\x1b[0;48;5;236m ls \x1b[1;48;5;160;38;5;231m-la\x1b[0;48;5;236m\x1b[K\x1b[0m"));
    assert!(out.contains("\x1b[4;1H  \x1b[38;5;203m●\x1b[0m \x1b[38;5;250mfalse\x1b[K\x1b[0m"));
    assert!(out.contains("\x1b[5;1H\x1b[K"));
    assert!(out.ends_with("\x1b[?25h"));
}

#[test]
fn pane_screen_window() {
    let lines: Vec<String> = vec!["a".to_string(), "b".to_string()];
    assert_eq!(pane_frame(&lines, 5), "\x1b[1;1Ha\x1b[K\x1b[2;1Hb\x1b[K\x1b[3;1H\x1b[J");
    let many: Vec<String> = (0..10).map(|i| {
        if i == 7 { format!("\x1b[1;38;5;203m{}", i) } else { i.to_string() }
    }).collect();
    let out = pane_frame(&many, 5);
    assert!(out.starts_with("\x1b[1;1H5\x1b[K"));
    assert!(out.contains("\x1b[4;1H8\x1b[K"));
    assert!(out.ends_with("\x1b[5;1H\x1b[J"));
}

#[test]
fn cache_status_texts() {
    let e = explanation();
    assert_eq!(cache_status(Some(&e), Some(0)), "loaded: 2 (0)");
    assert_eq!(cache_status(None, None), "loading (running)");
    let mut err = e.clone();
    err.error = Some("missing man page".to_string());
    assert_eq!(cache_status(Some(&err), Some(-2)), "error: missing man page (-2)");
}

#[test]
fn explanation_shown_for_selection() {
    let none = choose_explanation(None, None, None);
    assert_eq!(none.explanation.command, "");
    assert_eq!(none.explanation.error.as_deref(), Some("No commands recorded yet"));
    assert_eq!(none.cache_status, "empty");
    assert!(!none.fetch);
    let loading = choose_explanation(Some("ls".to_string()), None, Some(0));
    assert_eq!(loading.explanation.command, "ls");
    assert_eq!(loading.explanation.error.as_deref(), Some("Loading explanation..."));
    assert_eq!(loading.cache_status, "loading (0)");
    assert!(loading.fetch);
    let cached = choose_explanation(Some("ls".to_string()), Some(explanation()), None);
    assert_eq!(cached.explanation.matches.len(), explanation().matches.len());
    assert!(cached.cache_status.starts_with("loaded: "));
    assert!(cached.cache_status.ends_with("(running)"));
    assert!(!cached.fetch);
}

#[test]
fn list_redraws_on_change() {
    let st = ListState::new();
    let first = Drawn::new();
    assert!(needs_redraw(&st, "empty", &first, false));
    let drawn = Drawn::of(&st, "empty");
    assert!(!needs_redraw(&st, "empty", &drawn, false));
    assert!(needs_redraw(&st, "empty", &drawn, true));
    assert!(needs_redraw(&st, "loading (running)", &drawn, false));
    let mut moved = st;
    moved.selected = 1;
    assert!(needs_redraw(&moved, "empty", &drawn, false));
}

#[test]
fn pane_gives_up_after_ten_missing_reads() {
    let mut missing = 0;
    for _ in 0..10 {
        let (m, stop) = read_step(missing, ReadOutcome::Missing);
        assert!(!stop);
        missing = m;
    }
    assert_eq!(missing, 10);
    assert_eq!(read_step(missing, ReadOutcome::Failed), (10, false));
    assert_eq!(read_step(missing, ReadOutcome::Missing), (11, true));
    assert_eq!(read_step(missing, ReadOutcome::Read), (0, false));
    assert!(pane_needs_redraw("a", "b", 80, 24, 80, 24));
    assert!(pane_needs_redraw("a", "a", 80, 25, 80, 24));
    assert!(!pane_needs_redraw("a", "a", 80, 24, 80, 24));
}
