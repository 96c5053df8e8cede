use treeview::browser::{Action, App, Key, Mode, Step};
use treeview::tree::Node;

fn file(name: &str) -> Node {
    Node { name: name.as_bytes().to_vec(), path: format!("./{}", name), is_dir: false, children: Vec::new() }
}

fn four() -> Vec<Node> {
    vec![
        file("a.txt"),
        Node { name: b"b".to_vec(), path: "./b".to_string(), is_dir: true, children: vec![file("c.txt")] },
        file("d.txt"),
        file(".hidden"),
    ]
}

#[test]
fn next_three_times_then_clamped() {
    let mut app = App::new(&four());
    assert_eq!(app.entries.len(), 4);
    assert_eq!(app.selected_index, 0);
    for expected in 1..=3 {
        assert!(app.move_selection(Step::Next));
        assert_eq!(app.selected_index, expected);
    }
    assert!(!app.move_selection(Step::Next));
    assert_eq!(app.selected_index, 3);
}

#[test]
fn previous_at_start_changes_nothing() {
    let mut app = App::new(&four());
    app.scroll_offset = 7;
    assert!(!app.move_selection(Step::Previous));
    assert_eq!(app.selected_index, 0);
    assert_eq!(app.scroll_offset, 7);
}

#[test]
fn move_resets_scroll() {
    let mut app = App::new(&four());
    app.scroll_offset = 5;
    assert!(app.move_selection(Step::Next));
    assert_eq!(app.scroll_offset, 0);
    assert!(app.move_selection(Step::Previous));
    assert_eq!(app.selected_index, 0);
}

#[test]
fn empty_tree_navigation_is_inert() {
    let mut app = App::new(&Vec::new());
    assert!(!app.move_selection(Step::Next));
    assert!(!app.move_selection(Step::Previous));
    assert_eq!(app.dispatch(Key::Down), Action::Nothing);
    assert_eq!(app.selected_file(), None);
    app.load_selected_contents(Some("x".to_string()));
    assert_eq!(app.loaded_contents, None);
}

#[test]
fn toggle_hidden_rebuilds_and_selects_first() {
    let mut app = App::new(&four());
    app.move_selection(Step::Next);
    app.move_selection(Step::Next);
    app.toggle_hidden(&four());
    assert!(app.show_hidden);
    assert_eq!(app.selected_index, 0);
    assert_eq!(app.entries.len(), 5);
    assert_eq!(app.entries[0].name, b".hidden".to_vec());
    app.toggle_hidden(&four());
    assert!(!app.show_hidden);
    assert_eq!(app.entries.len(), 4);
}

#[test]
fn loading_directory_file_and_failure() {
    let mut app = App::new(&four());
    assert_eq!(app.selected_file(), Some("./a.txt".to_string()));
    app.load_selected_contents(Some("hello\n".to_string()));
    assert_eq!(app.loaded_contents.as_deref(), Some("hello\n"));
    app.load_selected_contents(None);
    assert_eq!(app.loaded_contents.as_deref(), Some("Unable to read file contents"));
    app.move_selection(Step::Next);
    assert_eq!(app.selected_file(), None);
    app.load_selected_contents(Some("ignored".to_string()));
    assert_eq!(app.loaded_contents, None);
}

#[test]
fn overlay_typing_erase_and_cancel() {
    let mut app = App::new(&four());
    assert_eq!(app.dispatch(Key::Enter), Action::Nothing);
    assert_eq!(app.mode, Mode::SearchOverlay);
    for c in "foo".chars() {
        assert_eq!(app.dispatch(Key::Char(c)), Action::Nothing);
    }
    app.dispatch(Key::Backspace);
    assert_eq!(app.search_buffer, "fo");
    assert_eq!(app.mode, Mode::SearchOverlay);
    app.dispatch(Key::Enter);
    assert_eq!(app.search_buffer, "fo");
    app.dispatch(Key::Esc);
    assert_eq!(app.mode, Mode::Navigation);
}

#[test]
fn overlay_keys_do_not_navigate() {
    let mut app = App::new(&four());
    app.open_overlay();
    assert_eq!(app.dispatch(Key::Char('q')), Action::Nothing);
    assert_eq!(app.dispatch(Key::Down), Action::Nothing);
    assert_eq!(app.selected_index, 0);
    assert_eq!(app.search_buffer, "q");
    app.overlay_input(Key::Backspace);
    app.overlay_input(Key::Backspace);
    assert_eq!(app.search_buffer, "");
    app.close_overlay();
    assert_eq!(app.mode, Mode::Navigation);
}

#[test]
fn navigation_keys() {
    let mut app = App::new(&four());
    assert_eq!(app.dispatch(Key::Char('j')), Action::LoadSelected);
    assert_eq!(app.dispatch(Key::Down), Action::LoadSelected);
    assert_eq!(app.dispatch(Key::Char('k')), Action::LoadSelected);
    assert_eq!(app.dispatch(Key::Up), Action::LoadSelected);
    assert_eq!(app.dispatch(Key::Up), Action::Nothing);
    assert_eq!(app.dispatch(Key::Char('h')), Action::ToggleHidden);
    assert!(!app.show_hidden);
    assert_eq!(app.dispatch(Key::Other), Action::Nothing);
    assert_eq!(app.dispatch(Key::Char('q')), Action::Quit);
}

#[test]
fn pane_proportions_follow_mode() {
    let mut app = App::new(&four());
    assert_eq!(app.pane_percentages(), vec![40, 60]);
    app.open_overlay();
    assert_eq!(app.pane_percentages(), vec![33, 33, 34]);
}

#[test]
fn contents_window_skips_and_clips() {
    let mut app = App::new(&four());
    assert!(app.visible_lines(10).is_empty());
    app.load_selected_contents(Some("l0\nl1\nl2\nl3".to_string()));
    assert_eq!(app.visible_lines(2), vec!["l0", "l1"]);
    app.scroll_offset = 1;
    assert_eq!(app.visible_lines(10), vec!["l1", "l2", "l3"]);
    app.scroll_offset = 9;
    assert!(app.visible_lines(3).is_empty());
}

#[test]
fn tree_rows_indent_by_depth() {
    let mut app = App::new(&four());
    assert_eq!(app.tree_row(0), "a.txt");
    assert_eq!(app.tree_row(2), "  c.txt");
    assert!(app.is_highlighted(0));
    assert!(!app.is_highlighted(2));
    app.move_selection(Step::Next);
    assert!(app.is_highlighted(1));
}

#[test]
fn overlay_buffer_kept_across_close_and_reopen() {
    let mut app = App::new(&four());
    app.dispatch(Key::Enter);
    app.dispatch(Key::Char('j'));
    app.dispatch(Key::Char('q'));
    assert_eq!(app.search_buffer, "jq");
    assert_eq!(app.selected_index, 0);
    assert_eq!(app.pane_percentages(), vec![33, 33, 34]);
    assert_eq!(app.dispatch(Key::Esc), Action::Nothing);
    assert_eq!(app.pane_percentages(), vec![40, 60]);
    app.dispatch(Key::Enter);
    assert_eq!(app.mode, Mode::SearchOverlay);
    assert_eq!(app.search_buffer, "jq");
}
