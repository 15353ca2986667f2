use todors::flat::{
    dump_items, list_delete, list_down, list_drag_down, list_drag_up, list_edit, list_first,
    list_insert, list_last, list_move, list_record_state, list_revert_state, list_up, parse_items,
    Action, Item, Operation, Panel, MAX_STACK_SIZE,
};
use todors::geometry::{Layout, LayoutKind, Point, Vec2};
use todors::layout::Layout as NestedLayout;
use todors::screen::{get_args, prefix, truncate, Args};
use todors::term::{
    term_clear_afer_cursor_str, term_goto_str, term_hide_cursor_str, term_reset_str,
    term_show_cursor_str, term_style_reset_str,
};
use todors::text::EditKey;

fn items(texts: &[&str]) -> Vec<Item> {
    texts.iter().map(|t| Item::new(t.to_string(), String::new())).collect()
}

fn texts(list: &[Item]) -> Vec<String> {
    list.iter().map(|i| i.text.clone()).collect()
}

fn lines(text: &[&str]) -> Vec<String> {
    text.iter().map(|s| s.to_string()).collect()
}

#[test]
fn panel_toggles_between_the_two_lists() {
    assert_eq!(Panel::Todo.togle(), Panel::Done);
    assert_eq!(Panel::Done.togle(), Panel::Todo);
}

#[test]
fn operation_keeps_what_it_is_given() {
    let op = Operation::new(Action::Move, 3, Panel::Done);
    assert_eq!(op.action, Action::Move);
    assert_eq!(op.cur, 3);
    assert_eq!(op.panel, Panel::Done);
    assert_eq!(Action::Delete.to_string(), "Delete");
    assert_eq!(Action::DragUp.to_string(), "Drag up");
    assert_eq!(Action::DragDown.to_string(), "Drag down");
    assert_eq!(Action::Move.to_string(), "Move");
}

#[test]
fn first_moves_the_cursor_to_zero() {
    let mut cur: usize = 7;
    list_first(&mut cur);
    assert_eq!(cur, 0);
    list_first(&mut cur);
    assert_eq!(cur, 0);
}

#[test]
fn the_cursor_moves_within_the_list() {
    let list = items(&["a", "b", "c"]);
    let mut cur: usize = 0;
    list_up(&list, &mut cur);
    assert_eq!(cur, 0);
    list_down(&list, &mut cur);
    assert_eq!(cur, 1);
    list_down(&list, &mut cur);
    list_down(&list, &mut cur);
    assert_eq!(cur, 2);
    list_up(&list, &mut cur);
    assert_eq!(cur, 1);
    list_last(&list, &mut cur);
    assert_eq!(cur, 2);
    let empty: Vec<Item> = Vec::new();
    let mut c: usize = 0;
    list_down(&empty, &mut c);
    list_up(&empty, &mut c);
    list_last(&empty, &mut c);
    assert_eq!(c, 0);
}

#[test]
fn flat_drag_swaps_neighbours() {
    let mut list = items(&["a", "b", "c"]);
    let mut cur: usize = 1;
    assert_eq!(list_drag_up(&mut list, &mut cur), Ok(()));
    assert_eq!((texts(&list), cur), (lines(&["b", "a", "c"]), 0));
    assert_eq!(list_drag_up(&mut list, &mut cur), Err("Can't drag up. Item is already at the top."));
    assert_eq!(list_drag_down(&mut list, &mut cur), Ok(()));
    assert_eq!(list_drag_down(&mut list, &mut cur), Ok(()));
    assert_eq!((texts(&list), cur), (lines(&["a", "c", "b"]), 2));
    assert_eq!(list_drag_down(&mut list, &mut cur), Err("Can't drag down. Item is already at the bottom."));
    let mut empty: Vec<Item> = Vec::new();
    let mut c: usize = 0;
    assert_eq!(list_drag_down(&mut empty, &mut c), Err("Can't drag down. Item is already at the bottom."));
    assert_eq!(list_drag_up(&mut empty, &mut c), Err("Can't drag up. Item is already at the top."));
    let mut one = items(&["a"]);
    let mut behind: usize = 3;
    assert_eq!(list_drag_up(&mut one, &mut behind), Err("Can't drag up. Item is already at the top."));
    assert_eq!((texts(&one), behind), (lines(&["a"]), 3));
}

#[test]
fn flat_insert_delete_and_move() {
    let mut list = items(&["a", "b"]);
    let mut cur: usize = 1;
    list_insert(&mut list, &mut cur);
    assert_eq!((texts(&list), cur), (lines(&["a", "", "b"]), 1));
    assert_eq!(list_delete(&mut list, &mut cur), Ok(()));
    assert_eq!((texts(&list), cur), (lines(&["a", "b"]), 1));
    let mut other = items(&["x"]);
    assert_eq!(list_move(&mut list, &mut other, &mut cur), Ok(()));
    assert_eq!((texts(&list), texts(&other), cur), (lines(&["a"]), lines(&["x", "b"]), 0));
    assert_eq!(list_delete(&mut list, &mut cur), Ok(()));
    assert_eq!(cur, 0);
    assert_eq!(list_delete(&mut list, &mut cur), Err("Can't delete item. List is empty."));
    assert_eq!(list_move(&mut list, &mut other, &mut cur), Err("Can't move item. List is empty."));
}

#[test]
fn flat_history_is_bounded() {
    let mut stack: Vec<Vec<Item>> = Vec::new();
    let mut list = items(&["a"]);
    assert_eq!(list_revert_state(&mut stack, &mut list), Err("Nothing to undo."));
    for i in 0..MAX_STACK_SIZE + 5 {
        let snapshot = items(&[&i.to_string()]);
        list_record_state(&mut stack, &snapshot);
    }
    assert_eq!(stack.len(), MAX_STACK_SIZE);
    assert_eq!(list_revert_state(&mut stack, &mut list), Ok(()));
    assert_eq!(texts(&list), lines(&["24"]));
    assert_eq!(stack.len(), MAX_STACK_SIZE - 1);
    for _ in 0..MAX_STACK_SIZE - 1 {
        assert_eq!(list_revert_state(&mut stack, &mut list), Ok(()));
    }
    assert_eq!(texts(&list), lines(&["5"]));
    assert_eq!(list_revert_state(&mut stack, &mut list), Err("Nothing to undo."));
}

#[test]
fn flat_edit_applies_one_key() {
    let mut item = Item::new("ab".to_string(), "24-01-31".to_string());
    let mut cur: usize = 5;
    list_edit(&mut item, &mut cur, None);
    assert_eq!((item.text.as_str(), cur), ("ab", 2));
    list_edit(&mut item, &mut cur, Some(EditKey::Char('c')));
    assert_eq!((item.text.as_str(), cur), ("abc", 3));
    list_edit(&mut item, &mut cur, Some(EditKey::Backspace));
    assert_eq!((item.text.as_str(), cur, item.date.as_str()), ("ab", 2, "24-01-31"));
}

#[test]
fn flat_lines_are_read_and_written() {
    let mut todos = Vec::new();
    let mut dones = Vec::new();
    let stored = lines(&["TODO(): a", "DONE(24-01-31): b", "TODO():  c "]);
    assert_eq!(parse_items(&stored, &mut todos, &mut dones), Ok(()));
    assert_eq!(texts(&todos), lines(&["a", " c "]));
    assert_eq!(texts(&dones), lines(&["b"]));
    assert_eq!(dones[0].date, "24-01-31");
    assert_eq!(dump_items(&todos, &dones), lines(&["TODO(): a", "TODO():  c ", "DONE(24-01-31): b"]));
    let bad = lines(&["TODO(): d", "DONE(2024-01-31): e", "TODO(): f"]);
    assert_eq!(parse_items(&bad, &mut todos, &mut dones), Err(2));
    assert_eq!(texts(&todos), lines(&["a", " c ", "d"]));
    assert_eq!(parse_items(&lines(&["TODO(*): d"]), &mut todos, &mut dones), Err(1));
    assert_eq!(parse_items(&lines(&["DONE(24-01-3x): d"]), &mut todos, &mut dones), Err(1));
}

#[test]
fn point_keeps_its_coordinates() {
    let p = Point::new(3, 4);
    assert_eq!((p.x, p.y), (3, 4));
    assert_eq!(p.add(Point::new(1, 2)), Point::new(4, 6));
    assert_eq!(p.mul(Point::new(1, 0)), Point::new(3, 0));
}

#[test]
fn vectors_add_multiply_and_divide() {
    let v = Vec2::new(7, 9);
    assert_eq!(v.add(Vec2::new(-1, 1)), Vec2::new(6, 10));
    assert_eq!(v.mul(Vec2::new(2, -1)), Vec2::new(14, -9));
    assert_eq!(v.div(Vec2::new(2, 3)), Vec2::new(3, 3));
    assert_eq!(v.div_rem(Vec2::new(2, 4)), (Vec2::new(3, 2), Vec2::new(1, 1)));
    assert_eq!(Vec2::new(-7, 7).div_rem(Vec2::new(2, -2)), (Vec2::new(-3, -3), Vec2::new(-1, 1)));
    assert_eq!(Vec2::new(-7, -8).div(Vec2::new(-2, 3)), Vec2::new(3, -2));
    assert_eq!(Vec2::new(i32::MIN, 0).div_rem(Vec2::new(1, -1)), (Vec2::new(i32::MIN, 0), Vec2::new(0, 0)));
    assert_eq!(Vec2::new(i32::MIN, i32::MAX).div(Vec2::new(2, -1)), Vec2::new(-1073741824, -i32::MAX));
}

#[test]
fn a_layout_grows_in_its_direction() {
    let mut row = Layout { kind: LayoutKind::Horz, pos: Point::new(2, 1), size: Point::new(0, 0) };
    row.add_widget(Point::new(5, 1));
    row.add_widget(Point::new(3, 2));
    assert_eq!(row.size, Point::new(8, 2));
    assert_eq!(row.available_pos(), Point::new(10, 1));
    let mut col = Layout { kind: LayoutKind::Vert, pos: Point::new(2, 1), size: Point::new(0, 0) };
    col.add_widget(Point::new(5, 1));
    col.add_widget(Point::new(3, 2));
    assert_eq!(col.size, Point::new(5, 3));
    assert_eq!(col.available_pos(), Point::new(2, 4));
}

#[test]
fn marks_show_state_and_hidden_subtasks() {
    assert_eq!(prefix(true, true, true), "[+]");
    assert_eq!(prefix(true, true, false), "[-]");
    assert_eq!(prefix(true, false, true), "[ ]");
    assert_eq!(prefix(false, true, true), "[ ]");
    assert_eq!(prefix(false, true, false), "[X]");
    assert_eq!(prefix(false, false, false), "[X]");
}

#[test]
fn truncate_counts_characters() {
    assert_eq!(truncate("añb→c", 3), "añb");
    assert_eq!(truncate("abc", 3), "abc");
    assert_eq!(truncate("abc", 9), "abc");
    assert_eq!(truncate("abc", 0), "");
}

#[test]
fn arguments_name_a_file_or_ask_for_help() {
    assert_eq!(get_args(&Vec::new()), Args::File("TODO.list".to_string()));
    assert_eq!(get_args(&lines(&["-f", "x"])), Args::File("x".to_string()));
    assert_eq!(get_args(&lines(&["--file", "y", "z"])), Args::File("y".to_string()));
    assert_eq!(get_args(&lines(&["-f"])), Args::MissingFile("-f".to_string()));
    assert_eq!(get_args(&lines(&["-h"])), Args::Help);
    assert_eq!(get_args(&lines(&["--help", "x"])), Args::Help);
    assert_eq!(get_args(&lines(&["x"])), Args::Unknown("x".to_string()));
}

#[test]
fn escape_sequences_are_what_a_terminal_expects() {
    assert_eq!(term_goto_str((0, 0)), "\x1b[1;1H");
    assert_eq!(term_goto_str((9, 123)), "\x1b[10;124H");
    assert_eq!(term_goto_str((65534, 99)), "\x1b[65535;100H");
    assert_eq!(term_clear_afer_cursor_str(), "\x1b[J");
    assert_eq!(term_style_reset_str(), "\x1b[m");
    assert_eq!(term_hide_cursor_str(), "\x1b[?25l");
    assert_eq!(term_show_cursor_str(), "\x1b[?25h");
    assert_eq!(term_reset_str(), "\x1b[1;1H\x1b[J\x1b[m");
}

#[test]
fn nested_layouts_share_the_room() {
    let mut root = NestedLayout::new(LayoutKind::Horz, Vec2::new(0, 0), Vec2::new(81, 24));
    assert!(root.is_sound());
    assert_eq!(root.available_size(), (Vec2::new(81, 24), Vec2::new(0, 0)));
    assert_eq!(root.available_pos(), Vec2::new(0, 0));
    let mut left = NestedLayout::new(LayoutKind::Vert, root.available_pos(), Vec2::new(81, 24));
    left.add_widget(Vec2::new(6, 1));
    left.add_widget(Vec2::new(10, 1));
    assert_eq!(left.size, Vec2::new(10, 2));
    assert_eq!(left.available_pos(), Vec2::new(0, 2));
    root.add_child(left);
    assert_eq!(root.size, Vec2::new(81, 2));
    assert_eq!(root.available_size(), (Vec2::new(40, 24), Vec2::new(1, 0)));
    assert_eq!(root.available_pos(), Vec2::new(40, 0));
    let mut right = NestedLayout::new(LayoutKind::Vert, root.available_pos(), Vec2::new(41, 24));
    right.add_widget(Vec2::new(4, 3));
    root.add_child(right);
    assert_eq!(root.children.len(), 2);
    assert_eq!(root.children[0].max_size, Vec2::new(40, 24));
    assert_eq!(root.children[0].size, Vec2::new(10, 2));
    assert_eq!(root.children[1].max_size, Vec2::new(41, 24));
    assert_eq!(root.size, Vec2::new(81, 3));
    root.resize(Vec2::new(30, 10));
    assert_eq!(root.max_size, Vec2::new(30, 10));
    assert_eq!(root.size, Vec2::new(27, 3));
    assert_eq!(root.children[0].max_size, Vec2::new(27, 24));
    assert_eq!(root.children[1].max_size, Vec2::new(27, 24));
    let mut odd = NestedLayout::new(LayoutKind::Vert, Vec2::new(0, 0), Vec2::new(-1, -7));
    assert!(odd.is_sound());
    odd.add_child(NestedLayout::new(LayoutKind::Horz, Vec2::new(0, 0), Vec2::new(2, 2)));
    assert_eq!(odd.available_size(), (Vec2::new(-1, -3), Vec2::new(0, -1)));
    assert_eq!(odd.available_pos(), Vec2::new(0, -3));
}
