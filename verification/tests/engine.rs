use todors::engine::{describe, Action, Mode, Operation, TodoApp};
use todors::flat::Panel;
use todors::list::ListError;
use todors::stored::load;
use todors::text::EditKey;
use todors::timestamp::Timestamp;

fn at(secs: i64) -> Timestamp {
    Timestamp { secs, nanos: 0, offset: 0 }
}

fn lines(text: &[&str]) -> Vec<String> {
    text.iter().map(|s| s.to_string()).collect()
}

fn app(text: &[&str]) -> TodoApp {
    let (todos, dones) = load(&lines(text), at(1)).unwrap();
    TodoApp::from_lists(todos, dones)
}

fn texts(app: &TodoApp) -> (Vec<String>, Vec<String>) {
    let t = (0..app.todos().len()).map(|i| app.todos().get(i).unwrap().get_text().clone()).collect();
    let d = (0..app.dones().len()).map(|i| app.dones().get(i).unwrap().get_text().clone()).collect();
    (t, d)
}

fn state(app: &TodoApp) -> (Vec<String>, Vec<String>, usize, usize) {
    let (t, d) = texts(app);
    (t, d, app.todos().cursor(), app.dones().cursor())
}

fn type_text(app: &mut TodoApp, cur: &mut usize, text: &str) {
    for c in text.chars() {
        app.edit_item_with(cur, c as i32);
    }
}

fn said(app: &mut TodoApp) -> String {
    let m = app.get_message().clone();
    app.clear_message();
    m
}

#[test]
fn a_new_app_is_empty_and_in_the_active_list() {
    let mut app = TodoApp::new();
    assert!(app.is_in_todos());
    assert!(!app.is_in_dones());
    assert!(!app.is_subs_hidden());
    assert!(!app.is_in_edit());
    assert_eq!(app.mode(), Mode::Normal);
    assert_eq!(app.get_message(), "");
    assert_eq!(app.get_todos_n(true), 0);
    assert_eq!(app.get_dones_n(false), 0);
    assert_eq!(app.iter_todos(), Vec::new());
    app.undo();
    assert_eq!(said(&mut app), "Nothing to undo.");
}

#[test]
fn focus_and_subtask_visibility_toggle() {
    let mut app = app(&["TODO(*): a", "    TODO(*): a1", "<--->", "DONE(2024-01-31 09:30 +0100): d", "    DONE(2024-01-31 09:30 +0100): d1"]);
    app.go_down();
    app.toggle_panel();
    assert!(app.is_in_dones());
    app.go_bottom();
    assert_eq!((app.todos().cursor(), app.dones().cursor()), (1, 1));
    assert_eq!(app.iter_dones(), vec![(0, 0), (1, 1)]);
    app.toggle_subtasks();
    assert!(app.is_subs_hidden());
    assert_eq!((app.todos().cursor(), app.dones().cursor()), (0, 0));
    assert_eq!(app.iter_todos(), vec![(0, 0)]);
    assert_eq!(app.iter_dones(), vec![(0, 0)]);
    assert_eq!(app.get_todos_n(true), 2);
    assert_eq!(app.get_todos_n(false), 1);
    app.toggle_subtasks();
    assert!(!app.is_subs_hidden());
    app.toggle_panel();
    assert!(app.is_in_todos());
}

#[test]
fn navigation_goes_to_the_list_in_focus() {
    let mut app = app(&["TODO(*): a", "    TODO(*): a1", "TODO(*): b", "TODO(*): c", "<--->", "DONE(2024-01-31 09:30 +0100): d"]);
    app.go_down();
    assert_eq!(app.todos().cursor(), 1);
    app.go_bottom();
    assert_eq!(app.todos().cursor(), 3);
    app.go_half();
    assert_eq!(app.todos().cursor(), 2);
    app.go_up();
    assert_eq!(app.todos().cursor(), 1);
    app.go_top();
    assert_eq!(app.todos().cursor(), 0);
    app.toggle_subtasks();
    app.go_down();
    assert_eq!(app.todos().cursor(), 2);
    app.go_half();
    assert_eq!(app.todos().cursor(), 2);
    app.go_bottom();
    assert_eq!(app.todos().cursor(), 3);
    app.go_up();
    assert_eq!(app.todos().cursor(), 2);
    assert_eq!(app.dones().cursor(), 0);
}

#[test]
fn is_cur_compares_with_the_item_under_the_cursor() {
    let app = app(&["TODO(*): a", "TODO(*): b", "<--->", "DONE(2024-01-31 09:30 +0100): d"]);
    assert!(app.is_cur_todo(app.todos().get(0).unwrap()));
    assert!(!app.is_cur_todo(app.todos().get(1).unwrap()));
    assert!(app.is_cur_done(app.dones().get(0).unwrap()));
    assert!(!app.is_cur_done(app.todos().get(0).unwrap()));
}

#[test]
fn drag_is_undone() {
    let mut app = app(&["TODO(*): a", "    TODO(*): a1", "TODO(*): b"]);
    let before = state(&app);
    app.drag_down();
    assert_eq!(texts(&app).0, vec!["b", "a", "a1"]);
    assert_eq!(app.todos().cursor(), 1);
    assert_eq!(said(&mut app), "");
    app.drag_up();
    assert_eq!(texts(&app).0, vec!["a", "a1", "b"]);
    app.undo();
    assert_eq!(said(&mut app), "Undo: Drag up");
    app.undo();
    assert_eq!(said(&mut app), "Undo: Drag down");
    assert_eq!(state(&app), before);
    assert_eq!(app.todos().history_len(), 0);
}

#[test]
fn a_failed_drag_says_why_and_changes_nothing() {
    let mut app = app(&["TODO(*): a", "    TODO(*): a1", "TODO(*): b"]);
    let before = state(&app);
    app.drag_up();
    assert_eq!(said(&mut app), "Can't drag up. Item is already at the top.");
    app.go_down();
    app.drag_down();
    assert_eq!(said(&mut app), "Can't move a subtask out from its parent.");
    app.go_bottom();
    app.drag_down();
    assert_eq!(said(&mut app), "Can't drag down. Item is already at the bottom.");
    app.toggle_panel();
    app.drag_up();
    assert_eq!(said(&mut app), "Can't drag up. List is empty.");
    app.drag_down();
    assert_eq!(said(&mut app), "Can't drag down. List is empty.");
    app.toggle_panel();
    app.go_top();
    assert_eq!(state(&app), before);
    assert_eq!(app.todos().history_len(), 0);
    app.undo();
    assert_eq!(said(&mut app), "Nothing to undo.");
}

#[test]
fn mark_works_in_the_active_list_only() {
    let mut app = app(&["TODO(*): a", "    TODO(*): a1", "<--->", "DONE(2024-01-31 09:30 +0100): d"]);
    app.mark_item_at(at(5));
    assert_eq!(said(&mut app), "Can't mark item. Item has active subtasks.");
    app.go_down();
    app.mark_item_at(at(5));
    assert_eq!(app.todos().get(1).unwrap().active_count(), 0);
    assert_eq!(app.todos().get(0).unwrap().active_count(), 1);
    app.undo();
    assert_eq!(said(&mut app), "Undo: Mark");
    assert_eq!(app.todos().get(1).unwrap().active_count(), 1);
    assert_eq!(app.todos().get(0).unwrap().active_count(), 2);
    app.toggle_panel();
    app.mark_item_at(at(5));
    assert_eq!(said(&mut app), "Can't mark done item, try transfering it first.");
    app.mark_item();
    assert_eq!(said(&mut app), "Can't mark done item, try transfering it first.");
}

#[test]
fn mark_on_an_empty_list_says_so() {
    let mut app = TodoApp::new();
    app.mark_item();
    assert_eq!(said(&mut app), "Can't mark item. List is empty.");
}

#[test]
fn transfer_to_the_completed_list_and_back() {
    let mut app = app(&[
        "TODO(*): x",
        "    TODO(*): x1",
        "TODO(): a",
        "    TODO(): a1",
        "<--->",
        "DONE(2024-01-31 09:30 +0100): d",
    ]);
    let before = state(&app);
    app.transfer_item_at(at(9));
    assert_eq!(said(&mut app), "Can't mark item. Item has active subtasks.");
    app.go_down();
    app.transfer_item_at(at(9));
    assert_eq!(said(&mut app), "Can't transfer item. Item is a subtask.");
    assert_eq!(app.todos().get(1).unwrap().active_count(), 1);
    app.go_bottom();
    app.transfer_item_at(at(9));
    assert_eq!(said(&mut app), "Can't transfer item. Item is a subtask.");
    app.go_up();
    app.transfer_item_at(at(9));
    assert_eq!(said(&mut app), "Done! Great job!");
    assert_eq!(texts(&app), (lines(&["x", "x1"]), lines(&["d", "a", "a1"])));
    assert_eq!(app.dones().get(1).unwrap().get_timestamp(), at(9));
    assert_eq!(app.dones().get(2).unwrap().get_parent(), Some(1));
    assert_eq!(app.todos().cursor(), 1);
    app.toggle_panel();
    app.go_bottom();
    app.go_up();
    app.transfer_item_at(at(10));
    assert_eq!(said(&mut app), "Not done yet? Keep going!");
    assert_eq!(texts(&app), (lines(&["x", "x1", "a", "a1"]), lines(&["d"])));
    assert_eq!(app.todos().get(2).unwrap().active_count(), 1);
    assert_eq!(app.todos().get(3).unwrap().active_count(), 0);
    assert_eq!(app.todos().get(2).unwrap().get_timestamp(), at(10));
    app.undo();
    assert_eq!(said(&mut app), "Undo: Transfer");
    assert!(app.is_in_dones());
    assert_eq!(texts(&app), (lines(&["x", "x1"]), lines(&["d", "a", "a1"])));
    app.toggle_panel();
    app.undo();
    assert!(app.is_in_todos());
    assert_eq!(texts(&app), (lines(&["x", "x1", "a", "a1"]), lines(&["d"])));
    assert_eq!(app.todos().get(2).unwrap().active_count(), 0);
    assert_eq!((app.todos().history_len(), app.dones().history_len()), (0, 0));
    app.go_top();
    assert_eq!(state(&app), before);
}

#[test]
fn transfer_completes_an_active_item_first() {
    let mut app = app(&["TODO(*): a", "    TODO(): a1", "TODO(*): b"]);
    app.transfer_item_at(at(9));
    assert_eq!(said(&mut app), "Done! Great job!");
    assert_eq!(texts(&app), (lines(&["b"]), lines(&["a", "a1"])));
    assert_eq!(app.dones().get(0).unwrap().active_count(), 0);
    assert_eq!(app.dones().get(0).unwrap().get_timestamp(), at(9));
    app.undo();
    assert_eq!(texts(&app), (lines(&["a", "a1", "b"]), lines(&[])));
    assert_eq!(app.todos().get(0).unwrap().active_count(), 1);
    assert_eq!(app.todos().get(0).unwrap().get_timestamp(), at(1));
}

#[test]
fn append_mark_transfer_through_the_app() {
    let mut app = TodoApp::new();
    let mut cur = app.insert_item_at(at(1)).unwrap();
    type_text(&mut app, &mut cur, "A");
    assert!(app.finish_edit());
    let mut cur = app.append_item_at(at(2)).unwrap();
    type_text(&mut app, &mut cur, "A.1");
    assert!(app.finish_edit());
    assert_eq!(texts(&app).0, lines(&["A", "A.1"]));
    assert!(app.todos().get(0).unwrap().is_active());
    assert_eq!(app.todos().get(1).unwrap().get_parent(), Some(0));
    app.mark_item_at(at(3));
    assert!(!app.todos().get(1).unwrap().is_active());
    app.go_up();
    app.transfer_item_at(at(4));
    assert_eq!(said(&mut app), "Done! Great job!");
    assert_eq!(texts(&app), (lines(&[]), lines(&["A", "A.1"])));
    assert_eq!(app.dones().get(0).unwrap().get_children(), &vec![1]);
    assert_eq!(app.dones().get(1).unwrap().get_parent(), Some(0));
    assert_eq!(app.dones().get(0).unwrap().get_timestamp(), at(4));
    assert!(!app.dones().get(0).unwrap().is_active());
}

#[test]
fn transfer_from_an_empty_list_says_so() {
    let mut app = TodoApp::new();
    app.transfer_item();
    assert_eq!(said(&mut app), "Can't transfer item. List is empty.");
    assert_eq!((app.todos().history_len(), app.dones().history_len()), (0, 0));
}

#[test]
fn delete_takes_subtasks_from_the_active_and_roots_from_the_completed_list() {
    let mut app = app(&[
        "TODO(*): a",
        "    TODO(*): a1",
        "<--->",
        "DONE(2024-01-31 09:30 +0100): d",
        "    DONE(2024-01-31 09:30 +0100): d1",
        "DONE(2024-01-31 09:30 +0100): e",
    ]);
    app.delete_item();
    assert_eq!(said(&mut app), "Can't delete a TODO item. Transfer it to DONEs first.");
    app.go_down();
    app.delete_item();
    assert_eq!(said(&mut app), "A TODO subtask deleted.");
    assert_eq!(texts(&app).0, lines(&["a"]));
    assert_eq!(app.todos().get(0).unwrap().active_count(), 1);
    app.toggle_panel();
    app.go_down();
    app.delete_item();
    assert_eq!(said(&mut app), "Can't delete a subtask. Only root items can be deleted.");
    app.go_up();
    app.delete_item();
    assert_eq!(said(&mut app), "A DONE item deleted.");
    assert_eq!(texts(&app).1, lines(&["e"]));
    app.undo();
    assert_eq!(said(&mut app), "Undo: Delete");
    assert_eq!(texts(&app).1, lines(&["d", "d1", "e"]));
    app.undo();
    assert!(app.is_in_todos());
    assert_eq!(texts(&app).0, lines(&["a", "a1"]));
    assert_eq!(app.todos().cursor(), 1);
    assert_eq!(app.todos().get(0).unwrap().active_count(), 2);
}

#[test]
fn delete_on_an_empty_list_says_so() {
    let mut app = TodoApp::new();
    app.delete_item();
    assert_eq!(said(&mut app), "Can't delete item. List is empty.");
    app.toggle_panel();
    app.delete_item();
    assert_eq!(said(&mut app), "Can't delete item. List is empty.");
}

#[test]
fn insert_starts_editing_and_is_undone_as_one() {
    let mut app = app(&["TODO(*): a"]);
    let before = state(&app);
    let mut cur = app.insert_item_at(at(4)).unwrap();
    assert_eq!(cur, 0);
    assert!(app.is_in_edit());
    assert_eq!(app.mode(), Mode::Editing(0));
    assert_eq!(said(&mut app), "What needs to be done?");
    type_text(&mut app, &mut cur, "  new one ");
    assert_eq!(app.mode(), Mode::Editing(10));
    assert!(app.finish_edit());
    assert_eq!(app.mode(), Mode::Normal);
    assert_eq!(texts(&app).0, lines(&["new one", "a"]));
    app.undo();
    assert_eq!(said(&mut app), "Undo: Insert");
    assert_eq!(state(&app), before);
}

#[test]
fn an_empty_new_item_leaves_no_trace() {
    let mut app = app(&["TODO(*): a"]);
    let before = state(&app);
    let mut cur = app.insert_item_at(at(4)).unwrap();
    type_text(&mut app, &mut cur, "x");
    app.edit_item_with_key(&mut cur, EditKey::Backspace);
    assert!(app.finish_edit());
    assert_eq!(state(&app), before);
    assert_eq!(app.todos().history_len(), 0);
    assert_eq!(app.get_message(), "");
    app.undo();
    assert_eq!(said(&mut app), "Nothing to undo.");
    let mut empty = TodoApp::new();
    assert_eq!(empty.insert_item(), Some(0));
    assert!(empty.finish_edit());
    assert_eq!(empty.todos().len(), 0);
    assert_eq!(empty.append_item(), None);
    assert_eq!(said(&mut empty), "Can't add subtask item. List is empty.");
}

#[test]
fn insert_and_append_are_for_the_active_list() {
    let mut app = app(&["TODO(*): a", "    TODO(*): a1", "<--->", "DONE(2024-01-31 09:30 +0100): d"]);
    app.go_down();
    assert_eq!(app.insert_item_at(at(4)), None);
    assert_eq!(said(&mut app), "Can't insert item. Current item is a subtask.");
    app.toggle_panel();
    assert_eq!(app.insert_item_at(at(4)), None);
    assert_eq!(said(&mut app), "Can't insert a new DONE item. Only new TODOs allowed.");
    assert_eq!(app.append_item_at(at(4)), None);
    assert_eq!(said(&mut app), "Can't add subtasks for DONE items.");
    assert_eq!(texts(&app), (lines(&["a", "a1"]), lines(&["d"])));
    assert_eq!((app.todos().history_len(), app.dones().history_len()), (0, 0));
}

#[test]
fn append_starts_editing_the_new_subtask() {
    let mut app = app(&["TODO(): a", "TODO(*): b"]);
    let mut cur = app.append_item_at(at(4)).unwrap();
    assert_eq!(said(&mut app), "What needs to be done for the this TODO?");
    type_text(&mut app, &mut cur, "sub");
    assert!(app.finish_edit());
    assert_eq!(texts(&app).0, lines(&["a", "sub", "b"]));
    assert_eq!(app.todos().cursor(), 1);
    assert_eq!(app.todos().get(0).unwrap().active_count(), 2);
    assert_eq!(app.todos().get(1).unwrap().get_parent(), Some(0));
    app.undo();
    assert_eq!(said(&mut app), "Undo: Append");
    assert_eq!(texts(&app).0, lines(&["a", "b"]));
    assert_eq!(app.todos().get(0).unwrap().active_count(), 0);
    assert_eq!(app.todos().cursor(), 0);
}

#[test]
fn edit_changes_a_text_and_cannot_empty_it() {
    let mut app = app(&["TODO(*): ab", "<--->", "DONE(2024-01-31 09:30 +0100): d"]);
    let mut cur = app.edit_item().unwrap();
    assert_eq!(cur, 2);
    assert_eq!(said(&mut app), "Editing current item.");
    app.edit_item_with_key(&mut cur, EditKey::Home);
    app.edit_item_with_key(&mut cur, EditKey::Delete);
    app.edit_item_with_key(&mut cur, EditKey::Delete);
    assert!(!app.finish_edit());
    assert!(app.is_in_edit());
    assert_eq!(said(&mut app), "TODO item can't be empty.");
    type_text(&mut app, &mut cur, "z");
    app.edit_item_with_key(&mut cur, EditKey::Left);
    type_text(&mut app, &mut cur, "y");
    app.edit_item_with_key(&mut cur, EditKey::Right);
    app.edit_item_with_key(&mut cur, EditKey::End);
    assert_eq!(cur, 2);
    assert!(app.finish_edit());
    assert_eq!(texts(&app).0, lines(&["yz"]));
    app.undo();
    assert_eq!(said(&mut app), "Undo: Edit");
    assert_eq!(texts(&app).0, lines(&["ab"]));
    app.toggle_panel();
    let mut cur = app.edit_item().unwrap();
    app.edit_item_with_key(&mut cur, EditKey::Backspace);
    assert!(!app.finish_edit());
    assert_eq!(said(&mut app), "DONE item can't be empty.");
    type_text(&mut app, &mut cur, "done");
    assert!(app.finish_edit());
    assert_eq!(texts(&app).1, lines(&["done"]));
}

#[test]
fn nothing_to_edit_in_an_empty_list() {
    let mut app = TodoApp::new();
    assert_eq!(app.edit_item(), None);
    assert_eq!(said(&mut app), "Nothing to edit.");
    assert!(!app.is_in_edit());
}

#[test]
fn parse_replaces_the_lists_and_says_what_it_did() {
    let mut app = TodoApp::new();
    assert_eq!(app.parse("TODO.list", None), Ok(()));
    assert_eq!(said(&mut app), "File 'TODO.list' not found. Creating a new one.");
    let stored = lines(&["TODO(*): a", "<--->", "DONE(2024-01-31 09:30 +0100): d"]);
    assert_eq!(app.parse("x.list", Some(&stored)), Ok(()));
    assert_eq!(said(&mut app), "Loaded 'x.list' file.");
    assert_eq!(texts(&app), (lines(&["a"]), lines(&["d"])));
    let bad = lines(&["TODO(*): b", "what"]);
    let e = app.parse_at("x.list", Some(&bad), at(1)).unwrap_err();
    assert_eq!(e.line, 2);
    assert_eq!(texts(&app), (lines(&["a"]), lines(&["d"])));
    assert_eq!(app.get_message(), "");
}

#[test]
fn save_writes_every_item_and_shows_subtasks_again() {
    let stored = lines(&["TODO(*): a", "    TODO(): a1", "<--->", "DONE(2024-01-31 09:30 +0100): d"]);
    let mut app = TodoApp::new();
    assert_eq!(app.parse_at("x", Some(&stored), at(1)), Ok(()));
    app.toggle_subtasks();
    assert_eq!(app.save(), Some(stored));
    assert!(!app.is_subs_hidden());
}

#[test]
fn every_failure_has_its_words() {
    assert_eq!(describe(Action::DragUp, ListError::EmptyList), "Can't drag up. List is empty.");
    assert_eq!(describe(Action::Mark, ListError::HasActiveSubtasks), "Can't mark item. Item has active subtasks.");
    assert_eq!(describe(Action::Transfer, ListError::NotARoot), "Can't transfer item. Item is a subtask.");
    assert_eq!(describe(Action::Transfer, ListError::StillActive), "Can't transfer item. Item is still active.");
    assert_eq!(describe(Action::Insert, ListError::CannotInsert), "Can't insert item. Current item is a subtask.");
    assert_eq!(describe(Action::Edit, ListError::NothingToUndo), "Nothing to undo.");
    assert_eq!(Action::DragDown.to_string(), "Drag down");
    assert_eq!(Action::Transfer.name(), "Transfer");
    assert_eq!(Operation::new(Action::Edit, Panel::Done), Operation { action: Action::Edit, panel: Panel::Done });
}
