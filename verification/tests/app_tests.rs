use fzf::app::{App, AppMode, Key, ViewerMode};
use fzf::engine::Engine;
use fzf::highlight::Highlighter;

fn app_of(names: &[&str]) -> App {
    App::new(Engine::new(names.iter().map(|s| s.to_string()).collect()))
}

fn press(app: &mut App, keys: &[Key]) {
    for key in keys {
        app.handle_key_event(*key);
    }
}

fn lines_of(lines: &[&str]) -> Vec<String> {
    lines.iter().map(|s| s.to_string()).collect()
}

#[test]
fn new_app_starts_in_the_list() {
    let app = app_of(&["main.rs", "setup.rs", "lib.rs"]);
    assert_eq!(app.app_mode(), AppMode::Left);
    assert!(!app.should_exit());
    assert!(!app.update_viewer());
    assert_eq!(app.input_text(), "");
    assert_eq!(app.selected_item_name(), "");
}

#[test]
fn typing_in_the_list_filters_it() {
    let mut app = app_of(&["main.rs", "setup.rs", "lib.rs"]);
    press(&mut app, &[Key::Char('s')]);
    assert_eq!(app.input_text(), "s");
    let list = app.handle_list_area(5).unwrap();
    assert_eq!(list.rows, vec!["setup.rs", "main.rs", "lib.rs"]);
    assert_eq!(list.selected_row, 2);
    assert_eq!(app.selected_item_name(), "lib.rs");
    press(&mut app, &[Key::Char('e')]);
    assert_eq!(app.input_text(), "se");
    let list = app.handle_list_area(5).unwrap();
    assert_eq!(list.rows, vec!["", "", "setup.rs"]);
    assert_eq!(list.selected_row, 2);
    assert_eq!(app.selected_item_name(), "setup.rs");
    press(&mut app, &[Key::Backspace, Key::Backspace, Key::Backspace]);
    assert_eq!(app.input_text(), "");
    let list = app.handle_list_area(5).unwrap();
    assert_eq!(list.rows, vec!["lib.rs", "setup.rs", "main.rs"]);
}

#[test]
fn list_is_padded_at_the_top() {
    let mut app = app_of(&["main.rs", "setup.rs", "lib.rs"]);
    let list = app.handle_list_area(7).unwrap();
    assert_eq!(list.rows, vec!["", "", "lib.rs", "setup.rs", "main.rs"]);
    assert_eq!(list.selected_row, 4);
    assert_eq!(app.selected_item_name(), "main.rs");
}

#[test]
fn list_shows_as_many_as_fit() {
    let mut app = app_of(&["main.rs", "setup.rs", "lib.rs"]);
    let list = app.handle_list_area(4).unwrap();
    assert_eq!(list.rows, vec!["setup.rs", "main.rs"]);
    assert_eq!(list.selected_row, 1);
}

#[test]
fn list_without_room_or_candidates_is_not_drawn() {
    let mut app = app_of(&["main.rs", "setup.rs", "lib.rs"]);
    assert!(app.handle_list_area(2).is_none());
    assert!(app.handle_list_area(1).is_none());
    assert!(app.handle_list_area(0).is_none());
    press(&mut app, &[Key::Char('q')]);
    assert!(app.handle_list_area(10).is_none());
    assert_eq!(app.selected_item_name(), "");
    let mut empty = app_of(&[]);
    assert!(empty.handle_list_area(10).is_none());
}

#[test]
fn up_and_down_move_the_selection() {
    let mut app = app_of(&["main.rs", "setup.rs", "lib.rs"]);
    press(&mut app, &[Key::Up]);
    assert!(app.update_viewer());
    let list = app.handle_list_area(5).unwrap();
    assert_eq!(list.selected_row, 1);
    assert_eq!(app.selected_item_name(), "setup.rs");
    press(&mut app, &[Key::Up, Key::Up, Key::Up]);
    let list = app.handle_list_area(5).unwrap();
    assert_eq!(list.selected_row, 0);
    assert_eq!(app.selected_item_name(), "lib.rs");
    press(&mut app, &[Key::Down]);
    let list = app.handle_list_area(5).unwrap();
    assert_eq!(list.selected_row, 1);
    press(&mut app, &[Key::Down, Key::Down, Key::Down]);
    let list = app.handle_list_area(5).unwrap();
    assert_eq!(list.selected_row, 2);
    assert_eq!(app.selected_item_name(), "main.rs");
}

#[test]
fn down_at_the_best_candidate_asks_for_no_viewer() {
    let mut app = app_of(&["main.rs", "setup.rs", "lib.rs"]);
    press(&mut app, &[Key::Down]);
    assert!(!app.update_viewer());
    let mut single = app_of(&["main.rs"]);
    press(&mut single, &[Key::Up]);
    assert!(!single.update_viewer());
}

#[test]
fn selection_is_pulled_back_onto_the_list() {
    let mut app = app_of(&["main.rs", "setup.rs", "lib.rs"]);
    press(&mut app, &[Key::Up, Key::Up, Key::Char('m')]);
    let list = app.handle_list_area(5).unwrap();
    assert_eq!(list.rows, vec!["", "", "main.rs"]);
    assert_eq!(list.selected_row, 2);
    assert_eq!(app.selected_item_name(), "main.rs");
}

#[test]
fn tab_switches_panes_and_esc_ends() {
    let mut app = app_of(&["main.rs"]);
    press(&mut app, &[Key::Tab]);
    assert_eq!(app.app_mode(), AppMode::Right(ViewerMode::Normal));
    press(&mut app, &[Key::Tab]);
    assert_eq!(app.app_mode(), AppMode::Left);
    press(&mut app, &[Key::Tab, Key::Char('/')]);
    assert_eq!(app.app_mode(), AppMode::Right(ViewerMode::Search));
    press(&mut app, &[Key::Tab]);
    assert_eq!(app.app_mode(), AppMode::Left);
    assert!(!app.should_exit());
    press(&mut app, &[Key::Esc]);
    assert!(app.should_exit());
}

#[test]
fn keys_go_to_the_file_pane_after_tab() {
    let mut app = app_of(&["main.rs", "setup.rs"]);
    press(&mut app, &[Key::Tab, Key::Char('x'), Key::Backspace, Key::Up, Key::Down]);
    assert_eq!(app.input_text(), "");
    let list = app.handle_list_area(5).unwrap();
    assert_eq!(list.rows, vec!["", "setup.rs", "main.rs"]);
    assert_eq!(list.selected_row, 2);
}

#[test]
fn file_pane_without_viewer_asks_for_one() {
    let highlighter = Highlighter::new();
    let mut app = app_of(&["notes.no_such_extension"]);
    assert!(app.handle_list_area(5).is_some());
    assert!(!app.update_viewer());
    assert!(app.handle_right_area(&highlighter, 10).is_none());
    assert!(app.update_viewer());
    app.set_viewer(lines_of(&["l0", "l1", "l2"]));
    assert!(!app.update_viewer());
    assert_eq!(
        app.handle_right_area(&highlighter, 10),
        Some((lines_of(&["l0", "l1"]), false))
    );
    app.set_viewer(lines_of(&["other"]));
    assert_eq!(
        app.handle_right_area(&highlighter, 1),
        Some((lines_of(&["l0"]), false))
    );
}

#[test]
fn search_inside_the_file_through_keys() {
    let highlighter = Highlighter::new();
    let mut app = app_of(&["notes.no_such_extension"]);
    app.handle_list_area(5);
    app.handle_right_area(&highlighter, 10);
    app.set_viewer(lines_of(&["foo bar", "bar foo", "baz", "foo", "end"]));
    press(&mut app, &[Key::Tab, Key::Down, Key::Char('/')]);
    assert_eq!(app.app_mode(), AppMode::Right(ViewerMode::Search));
    press(&mut app, &[Key::Char('f'), Key::Char('o'), Key::Char('x'), Key::Backspace, Key::Char('o')]);
    assert_eq!(app.input_text(), "foo");
    press(&mut app, &[Key::Enter]);
    assert_eq!(app.app_mode(), AppMode::Right(ViewerMode::Normal));
    assert_eq!(app.input_text(), "");
    assert_eq!(
        app.handle_right_area(&highlighter, 2),
        Some((lines_of(&["bar foo", "baz"]), false))
    );
    press(&mut app, &[Key::Char('n')]);
    assert_eq!(app.handle_right_area(&highlighter, 1), Some((lines_of(&["foo"]), false)));
    press(&mut app, &[Key::Char('n')]);
    assert_eq!(app.handle_right_area(&highlighter, 1), Some((lines_of(&["foo bar"]), false)));
    press(&mut app, &[Key::Char('N')]);
    assert_eq!(app.handle_right_area(&highlighter, 1), Some((lines_of(&["foo"]), false)));
    press(&mut app, &[Key::Char('N'), Key::Up]);
    assert_eq!(app.handle_right_area(&highlighter, 1), Some((lines_of(&["foo bar"]), false)));
}

#[test]
fn other_keys_do_nothing() {
    let mut app = app_of(&["main.rs", "setup.rs"]);
    press(&mut app, &[Key::Other, Key::Enter]);
    assert_eq!(app.app_mode(), AppMode::Left);
    assert_eq!(app.input_text(), "");
    assert!(!app.should_exit());
    press(&mut app, &[Key::Tab, Key::Other, Key::Enter, Key::Char('q')]);
    assert_eq!(app.app_mode(), AppMode::Right(ViewerMode::Normal));
    press(&mut app, &[Key::Char('/'), Key::Other, Key::Up, Key::Down]);
    assert_eq!(app.app_mode(), AppMode::Right(ViewerMode::Search));
}

#[test]
fn enter_without_viewer_only_changes_the_mode() {
    let mut app = app_of(&["main.rs"]);
    press(&mut app, &[Key::Tab, Key::Char('/'), Key::Char('a'), Key::Enter]);
    assert_eq!(app.app_mode(), AppMode::Right(ViewerMode::Normal));
    press(&mut app, &[Key::Char('n'), Key::Char('N'), Key::Up, Key::Down]);
    assert!(!app.should_exit());
}
