use todors::list::{List, ListError};
use todors::stored::load;
use todors::text::EditKey;
use todors::timestamp::Timestamp;

fn at(secs: i64) -> Timestamp {
    Timestamp { secs, nanos: 0, offset: 0 }
}

fn lines(text: &[&str]) -> Vec<String> {
    text.iter().map(|s| s.to_string()).collect()
}

fn active(text: &[&str]) -> List {
    let (todos, _) = load(&lines(text), at(1)).unwrap();
    todos
}

fn type_text(list: &mut List, text: &str) {
    let mut cur: usize = 0;
    for c in text.chars() {
        list.edit_with(&mut cur, EditKey::Char(c));
    }
}

fn shape(list: &List) -> Vec<(String, Option<usize>, Vec<usize>, usize)> {
    (0..list.len())
        .map(|i| {
            let item = list.get(i).unwrap();
            (
                item.get_text().clone(),
                item.get_parent(),
                item.get_children().clone(),
                item.active_count(),
            )
        })
        .collect()
}

fn row(text: &str, parent: Option<usize>, children: &[usize], count: usize) -> (String, Option<usize>, Vec<usize>, usize) {
    (text.to_string(), parent, children.to_vec(), count)
}

#[test]
fn new_list_is_empty() {
    let list = List::new();
    assert_eq!(list.len(), 0);
    assert_eq!(list.cursor(), 0);
    assert_eq!(list.history_len(), 0);
    assert!(list.get_cur_item().is_none());
    assert!(list.is_at_root());
    assert!(list.is_at_sub());
}

#[test]
fn navigation_on_an_empty_list_changes_nothing() {
    let mut list = List::new();
    list.up(true);
    list.down(true);
    list.first();
    list.half(true);
    list.half(false);
    list.last(true);
    list.last(false);
    assert_eq!(list.cursor(), 0);
    assert_eq!(list.len(), 0);
}

#[test]
fn insert_puts_a_root_before_the_cursor() {
    let mut list = active(&["TODO(*): a", "    TODO(*): a1", "TODO(*): b"]);
    list.down(false);
    assert_eq!(list.cursor(), 2);
    assert_eq!(list.insert(at(5)), Ok(()));
    assert_eq!(list.cursor(), 2);
    assert_eq!(
        shape(&list),
        vec![
            row("a", None, &[1], 2),
            row("a1", Some(0), &[], 1),
            row("", None, &[], 1),
            row("b", None, &[], 1),
        ]
    );
    assert_eq!(list.get(2).unwrap().get_timestamp(), at(5));
}

#[test]
fn insert_shifts_the_links_behind_it() {
    let mut list = active(&["TODO(*): a", "TODO(*): b", "    TODO(*): b1", "        TODO(*): b11"]);
    assert_eq!(list.insert(at(5)), Ok(()));
    assert_eq!(
        shape(&list),
        vec![
            row("", None, &[], 1),
            row("a", None, &[], 1),
            row("b", None, &[3], 2),
            row("b1", Some(2), &[4], 2),
            row("b11", Some(3), &[], 1),
        ]
    );
}

#[test]
fn insert_into_an_empty_list() {
    let mut list = List::new();
    assert_eq!(list.insert(at(5)), Ok(()));
    assert_eq!(shape(&list), vec![row("", None, &[], 1)]);
    assert_eq!(list.cursor(), 0);
}

#[test]
fn insert_fails_on_a_subtask() {
    let mut list = active(&["TODO(*): a", "    TODO(*): a1"]);
    list.down(true);
    let before = shape(&list);
    assert_eq!(list.insert(at(5)), Err(ListError::CannotInsert));
    assert_eq!(shape(&list), before);
    assert_eq!(list.cursor(), 1);
}

#[test]
fn append_adds_the_last_subtask_behind_the_subtree() {
    let mut list = active(&["TODO(*): a", "    TODO(*): a1", "        TODO(*): a11", "TODO(*): b"]);
    assert_eq!(list.append(at(9)), Ok(()));
    assert_eq!(list.cursor(), 3);
    assert_eq!(
        shape(&list),
        vec![
            row("a", None, &[1, 3], 3),
            row("a1", Some(0), &[2], 2),
            row("a11", Some(1), &[], 1),
            row("", Some(0), &[], 1),
            row("b", None, &[], 1),
        ]
    );
}

#[test]
fn append_wakes_complete_ancestors() {
    let mut list = active(&["TODO(): a", "    TODO(): a1"]);
    list.down(true);
    assert_eq!(list.append(at(9)), Ok(()));
    assert_eq!(
        shape(&list),
        vec![row("a", None, &[1], 2), row("a1", Some(0), &[2], 2), row("", Some(1), &[], 1)]
    );
    assert_eq!(list.cursor(), 2);
}

#[test]
fn append_fails_on_an_empty_list() {
    let mut list = List::new();
    assert_eq!(list.append(at(9)), Err(ListError::EmptyList));
    assert_eq!(list.len(), 0);
}

#[test]
fn delete_removes_the_whole_subtree() {
    let mut list = active(&[
        "TODO(*): a",
        "    TODO(*): a1",
        "    TODO(*): a2",
        "TODO(*): b",
        "    TODO(*): b1",
    ]);
    assert_eq!(list.delete(), Ok(()));
    assert_eq!(shape(&list), vec![row("b", None, &[1], 2), row("b1", Some(0), &[], 1)]);
    assert_eq!(list.cursor(), 0);
}

#[test]
fn delete_of_a_subtask_fixes_its_parent() {
    let mut list = active(&[
        "TODO(*): a",
        "    TODO(*): a1",
        "        TODO(*): a11",
        "    TODO(): a2",
        "    TODO(*): a3",
    ]);
    list.down(true);
    assert_eq!(list.delete(), Ok(()));
    assert_eq!(
        shape(&list),
        vec![row("a", None, &[1, 2], 2), row("a2", Some(0), &[], 0), row("a3", Some(0), &[], 1)]
    );
    assert_eq!(list.cursor(), 1);
}

#[test]
fn delete_of_a_complete_subtask_keeps_the_count() {
    let mut list = active(&["TODO(*): a", "    TODO(): a1", "    TODO(*): a2"]);
    list.down(true);
    assert_eq!(list.delete(), Ok(()));
    assert_eq!(shape(&list), vec![row("a", None, &[1], 2), row("a2", Some(0), &[], 1)]);
}

#[test]
fn delete_of_the_last_item_moves_the_cursor_back() {
    let mut list = active(&["TODO(*): a", "TODO(*): b"]);
    list.last(true);
    assert_eq!(list.delete(), Ok(()));
    assert_eq!(list.cursor(), 0);
    assert_eq!(list.delete(), Ok(()));
    assert_eq!(list.cursor(), 0);
    assert_eq!(list.len(), 0);
    assert_eq!(list.delete(), Err(ListError::EmptyList));
}

#[test]
fn mark_completes_and_reopens() {
    let mut list = active(&["TODO(*): a", "    TODO(*): a1", "    TODO(*): a2"]);
    assert_eq!(list.mark(at(3)), Err(ListError::HasActiveSubtasks));
    list.down(true);
    assert_eq!(list.mark(at(3)), Ok(()));
    assert_eq!(list.get(0).unwrap().active_count(), 2);
    assert_eq!(list.get(1).unwrap().active_count(), 0);
    assert_eq!(list.get(1).unwrap().get_timestamp(), at(3));
    list.down(true);
    assert_eq!(list.mark(at(4)), Ok(()));
    assert_eq!(list.get(0).unwrap().active_count(), 1);
    list.first();
    assert_eq!(list.mark(at(5)), Ok(()));
    assert_eq!(list.get(0).unwrap().active_count(), 0);
    assert!(!list.get(0).unwrap().is_active());
    list.down(true);
    assert_eq!(list.mark(at(6)), Ok(()));
    assert_eq!(list.get(1).unwrap().active_count(), 1);
    assert_eq!(list.get(0).unwrap().active_count(), 2);
    assert_eq!(list.get(1).unwrap().get_timestamp(), at(3));
}

#[test]
fn reopening_wakes_every_complete_ancestor_once() {
    let mut list = active(&["TODO(): a", "    TODO(): a1", "        TODO(): a11", "    TODO(): a2"]);
    list.down(true);
    list.down(true);
    assert_eq!(list.mark(at(6)), Ok(()));
    assert_eq!(
        shape(&list),
        vec![
            row("a", None, &[1, 3], 2),
            row("a1", Some(0), &[2], 2),
            row("a11", Some(1), &[], 1),
            row("a2", Some(0), &[], 0),
        ]
    );
    list.last(true);
    assert_eq!(list.mark(at(7)), Ok(()));
    assert_eq!(list.get(0).unwrap().active_count(), 3);
}

#[test]
fn mark_fails_on_an_empty_list() {
    let mut list = List::new();
    assert_eq!(list.mark(at(3)), Err(ListError::EmptyList));
}

#[test]
fn completing_a_deep_leaf_changes_its_parent_only() {
    let mut list = active(&["TODO(*): a", "    TODO(*): a1", "        TODO(*): a11"]);
    list.last(true);
    assert_eq!(list.mark(at(3)), Ok(()));
    assert_eq!(list.get(2).unwrap().active_count(), 0);
    assert_eq!(list.get(1).unwrap().active_count(), 1);
    assert_eq!(list.get(0).unwrap().active_count(), 2);
}

#[test]
fn drag_up_swaps_whole_subtrees() {
    let mut list = active(&[
        "TODO(*): a",
        "    TODO(*): a1",
        "TODO(*): b",
        "    TODO(*): b1",
        "    TODO(*): b2",
        "TODO(*): c",
    ]);
    list.down(false);
    assert_eq!(list.cursor(), 2);
    assert_eq!(list.drag_up(), Ok(()));
    assert_eq!(list.cursor(), 0);
    assert_eq!(
        shape(&list),
        vec![
            row("b", None, &[1, 2], 3),
            row("b1", Some(0), &[], 1),
            row("b2", Some(0), &[], 1),
            row("a", None, &[4], 2),
            row("a1", Some(3), &[], 1),
            row("c", None, &[], 1),
        ]
    );
}

#[test]
fn drag_down_swaps_whole_subtrees() {
    let mut list = active(&[
        "TODO(*): a",
        "    TODO(*): a1",
        "TODO(*): b",
        "    TODO(*): b1",
        "    TODO(*): b2",
        "TODO(*): c",
    ]);
    assert_eq!(list.drag_down(), Ok(()));
    assert_eq!(list.cursor(), 3);
    assert_eq!(
        shape(&list),
        vec![
            row("b", None, &[1, 2], 3),
            row("b1", Some(0), &[], 1),
            row("b2", Some(0), &[], 1),
            row("a", None, &[4], 2),
            row("a1", Some(3), &[], 1),
            row("c", None, &[], 1),
        ]
    );
}

#[test]
fn drag_of_subtasks_reorders_the_children_of_the_parent() {
    let mut list = active(&[
        "TODO(*): a",
        "    TODO(*): a1",
        "        TODO(): a11",
        "    TODO(): a2",
        "    TODO(*): a3",
    ]);
    list.down(true);
    assert_eq!(list.drag_down(), Ok(()));
    assert_eq!(list.cursor(), 2);
    assert_eq!(
        shape(&list),
        vec![
            row("a", None, &[1, 2, 4], 3),
            row("a2", Some(0), &[], 0),
            row("a1", Some(0), &[3], 1),
            row("a11", Some(2), &[], 0),
            row("a3", Some(0), &[], 1),
        ]
    );
    list.last(true);
    assert_eq!(list.drag_up(), Ok(()));
    assert_eq!(list.cursor(), 2);
    assert_eq!(
        shape(&list),
        vec![
            row("a", None, &[1, 2, 3], 3),
            row("a2", Some(0), &[], 0),
            row("a3", Some(0), &[], 1),
            row("a1", Some(0), &[4], 1),
            row("a11", Some(3), &[], 0),
        ]
    );
}

#[test]
fn drag_stops_at_the_first_and_the_last_root() {
    let mut list = active(&["TODO(*): a", "    TODO(*): a1", "TODO(*): b", "    TODO(*): b1"]);
    let before = shape(&list);
    assert_eq!(list.drag_up(), Err(ListError::AlreadyAtTop));
    assert_eq!(shape(&list), before);
    assert_eq!(list.cursor(), 0);
    list.last(false);
    assert_eq!(list.cursor(), 2);
    assert_eq!(list.drag_down(), Err(ListError::AlreadyAtBottom));
    assert_eq!(shape(&list), before);
    assert_eq!(list.cursor(), 2);
}

#[test]
fn a_subtask_cannot_leave_its_parent() {
    let mut list = active(&["TODO(*): a", "    TODO(*): a1", "TODO(*): b", "    TODO(*): b1"]);
    let before = shape(&list);
    list.down(true);
    assert_eq!(list.drag_up(), Err(ListError::CannotLeaveParent));
    assert_eq!(list.drag_down(), Err(ListError::CannotLeaveParent));
    list.last(true);
    assert_eq!(list.drag_up(), Err(ListError::CannotLeaveParent));
    assert_eq!(list.drag_down(), Err(ListError::CannotLeaveParent));
    assert_eq!(shape(&list), before);
}

#[test]
fn drag_fails_on_an_empty_list() {
    let mut list = List::new();
    assert_eq!(list.drag_up(), Err(ListError::EmptyList));
    assert_eq!(list.drag_down(), Err(ListError::EmptyList));
}

#[test]
fn transfer_moves_a_complete_root_to_the_end_of_the_other_list() {
    let mut from = active(&["TODO(*): x", "TODO(): a", "    TODO(): a1", "    TODO(): a2", "TODO(*): y", "    TODO(*): y1"]);
    let mut to = active(&["TODO(): d", "    TODO(): d1"]);
    from.down(false);
    assert_eq!(from.transfer(&mut to, at(42)), Ok(()));
    assert_eq!(
        shape(&from),
        vec![row("x", None, &[], 1), row("y", None, &[2], 2), row("y1", Some(1), &[], 1)]
    );
    assert_eq!(from.cursor(), 1);
    assert_eq!(
        shape(&to),
        vec![
            row("d", None, &[1], 0),
            row("d1", Some(0), &[], 0),
            row("a", None, &[3, 4], 0),
            row("a1", Some(2), &[], 0),
            row("a2", Some(2), &[], 0),
        ]
    );
    assert_eq!(to.get(2).unwrap().get_timestamp(), at(42));
    assert_eq!(to.get(3).unwrap().get_timestamp(), at(1));
    assert_eq!(to.cursor(), 0);
}

#[test]
fn transfer_refuses_subtasks_active_items_and_empty_lists() {
    let mut from = active(&["TODO(*): a", "    TODO(): a1"]);
    let mut to = List::new();
    assert_eq!(from.transfer(&mut to, at(42)), Err(ListError::StillActive));
    from.down(true);
    assert_eq!(from.transfer(&mut to, at(42)), Err(ListError::NotARoot));
    assert_eq!(to.len(), 0);
    assert_eq!(from.len(), 2);
    let mut empty = List::new();
    assert_eq!(empty.transfer(&mut to, at(42)), Err(ListError::EmptyList));
}

#[test]
fn append_mark_transfer_scenario() {
    let mut todos = List::new();
    let mut dones = List::new();
    assert_eq!(todos.insert(at(1)), Ok(()));
    type_text(&mut todos, "A");
    assert_eq!(shape(&todos), vec![row("A", None, &[], 1)]);
    assert_eq!(todos.append(at(2)), Ok(()));
    type_text(&mut todos, "A.1");
    assert_eq!(shape(&todos), vec![row("A", None, &[1], 2), row("A.1", Some(0), &[], 1)]);
    assert_eq!(todos.cursor(), 1);
    assert_eq!(todos.mark(at(3)), Ok(()));
    assert_eq!(shape(&todos), vec![row("A", None, &[1], 1), row("A.1", Some(0), &[], 0)]);
    todos.first();
    assert_eq!(todos.transfer(&mut dones, at(4)), Err(ListError::StillActive));
    assert_eq!(todos.mark(at(4)), Ok(()));
    assert_eq!(todos.get(0).unwrap().active_count(), 0);
    assert_eq!(todos.transfer(&mut dones, at(5)), Ok(()));
    assert_eq!(todos.len(), 0);
    assert_eq!(todos.cursor(), 0);
    assert_eq!(shape(&dones), vec![row("A", None, &[1], 0), row("A.1", Some(0), &[], 0)]);
    assert_eq!(dones.get(0).unwrap().get_timestamp(), at(5));
    assert_eq!(dones.get(1).unwrap().get_timestamp(), at(3));
}

#[test]
fn deleting_a_root_with_two_subtasks_shifts_later_items_by_three() {
    let mut list = active(&[
        "TODO(*): r",
        "    TODO(*): r1",
        "    TODO(*): r2",
        "TODO(*): s",
        "    TODO(*): s1",
        "        TODO(*): s11",
        "TODO(*): t",
    ]);
    assert_eq!(list.children_cnt(0), 2);
    assert_eq!(list.subtree_end(0), 3);
    assert_eq!(list.delete(), Ok(()));
    assert_eq!(
        shape(&list),
        vec![
            row("s", None, &[1], 2),
            row("s1", Some(0), &[2], 2),
            row("s11", Some(1), &[], 1),
            row("t", None, &[], 1),
        ]
    );
}

#[test]
fn snapshots_bring_items_and_cursor_back() {
    let mut list = active(&["TODO(*): a", "    TODO(*): a1", "TODO(*): b"]);
    list.down(true);
    let before = shape(&list);
    list.record_state();
    assert_eq!(list.history_len(), 1);
    assert_eq!(list.delete(), Ok(()));
    list.first();
    assert_eq!(list.drag_down(), Ok(()));
    assert_eq!(list.revert_state(), Ok(()));
    assert_eq!(shape(&list), before);
    assert_eq!(list.cursor(), 1);
    assert_eq!(list.history_len(), 0);
    assert_eq!(list.revert_state(), Err(ListError::NothingToUndo));
    assert_eq!(shape(&list), before);
}

#[test]
fn up_and_down_visit_every_item_or_roots_only() {
    let mut list = active(&["TODO(*): a", "    TODO(*): a1", "TODO(*): b", "    TODO(*): b1", "TODO(*): c"]);
    list.down(true);
    assert_eq!(list.cursor(), 1);
    list.down(false);
    assert_eq!(list.cursor(), 2);
    list.down(false);
    assert_eq!(list.cursor(), 4);
    list.down(false);
    assert_eq!(list.cursor(), 4);
    list.down(true);
    assert_eq!(list.cursor(), 4);
    list.up(true);
    assert_eq!(list.cursor(), 3);
    list.up(false);
    assert_eq!(list.cursor(), 2);
    list.up(false);
    assert_eq!(list.cursor(), 0);
    list.up(false);
    assert_eq!(list.cursor(), 0);
    list.up(true);
    assert_eq!(list.cursor(), 0);
}

#[test]
fn half_and_last_count_items_or_roots() {
    let mut list = active(&[
        "TODO(*): a",
        "    TODO(*): a1",
        "    TODO(*): a2",
        "    TODO(*): a3",
        "TODO(*): b",
        "TODO(*): c",
        "    TODO(*): c1",
    ]);
    list.half(true);
    assert_eq!(list.cursor(), 3);
    list.half(false);
    assert_eq!(list.cursor(), 4);
    list.last(true);
    assert_eq!(list.cursor(), 6);
    list.last(false);
    assert_eq!(list.cursor(), 5);
    list.first();
    assert_eq!(list.cursor(), 0);
    assert_eq!(list.count(true), 7);
    assert_eq!(list.count(false), 3);
    assert_eq!(list.count_roots(), 3);
}

#[test]
fn rows_give_position_and_depth() {
    let list = active(&["TODO(*): a", "    TODO(*): a1", "        TODO(*): a11", "TODO(*): b"]);
    assert_eq!(list.rows(false), vec![(0, 0), (1, 1), (2, 2), (3, 0)]);
    assert_eq!(list.rows(true), vec![(0, 0), (3, 0)]);
    assert_eq!(list.level(2), 2);
}

#[test]
fn edit_changes_the_text_under_the_cursor() {
    let mut list = active(&["TODO(*): ab", "TODO(*): cd"]);
    list.down(true);
    let mut cur: usize = 1;
    list.edit(&mut cur, 120);
    assert_eq!(cur, 2);
    assert_eq!(list.get(1).unwrap().get_text(), "cxd");
    assert_eq!(list.get(0).unwrap().get_text(), "ab");
    assert_eq!(list.cur_text_len(), 3);
    let mut empty = List::new();
    let mut c: usize = 4;
    empty.edit(&mut c, 120);
    empty.edit_with(&mut c, EditKey::End);
    assert_eq!(c, 4);
    assert_eq!(empty.cur_text_len(), 0);
}

#[test]
fn trim_removes_the_white_space_around_the_text() {
    let mut list = List::new();
    assert_eq!(list.insert(at(1)), Ok(()));
    type_text(&mut list, "  a b  ");
    list.trim_cur_text();
    assert_eq!(list.get(0).unwrap().get_text(), "a b");
}

fn subtree_by_links(list: &List, root: usize) -> Vec<usize> {
    (0..list.len())
        .filter(|&j| {
            let mut at = Some(j);
            while let Some(i) = at {
                if i == root {
                    return true;
                }
                at = list.get(i).unwrap().get_parent();
            }
            false
        })
        .collect()
}

fn assert_well_formed(list: &List) {
    let n = list.len();
    if n == 0 {
        assert_eq!(list.cursor(), 0);
    } else {
        assert!(list.cursor() < n);
    }
    for i in 0..n {
        let item = list.get(i).unwrap();
        if let Some(p) = item.get_parent() {
            assert!(p < i);
            assert!(list.get(p).unwrap().get_children().contains(&i));
        }
        let kids = item.get_children();
        for w in kids.windows(2) {
            assert!(w[0] < w[1]);
        }
        let mut active_kids = 0;
        for &k in kids {
            assert!(i < k && k < n);
            assert_eq!(list.get(k).unwrap().get_parent(), Some(i));
            if list.get(k).unwrap().is_active() {
                active_kids += 1;
            }
        }
        if item.is_active() {
            assert_eq!(item.active_count(), 1 + active_kids);
        } else {
            assert_eq!(active_kids, 0);
        }
        let end = list.subtree_end(i);
        let block: Vec<usize> = (i..end).collect();
        assert_eq!(subtree_by_links(list, i), block);
    }
}

#[test]
fn any_sequence_of_edits_keeps_the_lists_well_formed() {
    let mut seed: u64 = 0x2545_f491_4f6c_dd1d;
    let mut next = move |bound: u64| -> u64 {
        seed ^= seed << 13;
        seed ^= seed >> 7;
        seed ^= seed << 17;
        seed % bound
    };
    let mut todos = List::new();
    let mut dones = List::new();
    for step in 0..4000 {
        let before = (shape(&todos), todos.cursor());
        todos.record_state();
        let changed = match next(12) {
            0 => todos.insert(at(step)).is_ok(),
            1 | 2 => todos.append(at(step)).is_ok(),
            3 => todos.delete().is_ok(),
            4 => todos.drag_up().is_ok(),
            5 => todos.drag_down().is_ok(),
            6 | 7 => todos.mark(at(step)).is_ok(),
            8 => todos.transfer(&mut dones, at(step)).is_ok(),
            9 => {
                dones.last(false);
                dones.transfer(&mut todos, at(step)).is_ok()
            }
            10 => {
                todos.up(next(2) == 0);
                false
            }
            _ => {
                todos.down(next(2) == 0);
                false
            }
        };
        assert_well_formed(&todos);
        assert_well_formed(&dones);
        if changed && next(5) == 0 && dones.len() < 40 {
            let kept = (shape(&todos), todos.cursor());
            todos.record_state();
            let _ = todos.delete();
            assert_eq!(todos.revert_state(), Ok(()));
            assert_eq!((shape(&todos), todos.cursor()), kept);
        }
        if !changed && next(3) == 0 {
            let moved = todos.cursor();
            assert_eq!(todos.revert_state(), Ok(()));
            assert_eq!(shape(&todos), before.0);
            assert_eq!(todos.cursor(), before.1);
            if moved < todos.len() {
                while todos.cursor() < moved {
                    todos.down(true);
                }
            }
        } else {
            todos.drop_state();
        }
        assert_eq!(todos.history_len(), 0);
        if todos.len() > 60 {
            todos.first();
            let _ = todos.delete();
        }
    }
    assert!(todos.len() + dones.len() > 0);
}

#[test]
fn mark_at_works_on_any_position() {
    let mut list = active(&["TODO(*): a", "    TODO(*): a1", "TODO(): b"]);
    let before = shape(&list);
    assert_eq!(list.mark_at(3, at(5)), Err(ListError::EmptyList));
    assert_eq!(list.mark_at(0, at(5)), Err(ListError::HasActiveSubtasks));
    assert_eq!(shape(&list), before);
    assert_eq!(list.mark_at(1, at(5)), Ok(()));
    assert_eq!(list.mark_at(2, at(6)), Ok(()));
    assert_eq!(
        shape(&list),
        vec![row("a", None, &[1], 1), row("a1", Some(0), &[], 0), row("b", None, &[], 1)]
    );
    assert_eq!(list.cursor(), 0);
    assert_eq!(list.get(1).unwrap().get_timestamp(), at(5));
    assert_eq!(list.get(2).unwrap().get_timestamp(), at(1));
}
