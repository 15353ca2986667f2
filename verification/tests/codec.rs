use todors::codec::{
    is_separator, line_depth, read_done, read_todo, stamp_closes_once, write_done, write_todo,
    ParseError, ParseErrorKind,
};
use todors::roundtrip::save_readable;
use todors::text::EditKey;
use todors::item::Item;
use todors::stored::{load, place, recount, save};
use todors::timestamp::Timestamp;

fn at(secs: i64) -> Timestamp {
    Timestamp { secs, nanos: 0, offset: 0 }
}

fn lines(text: &[&str]) -> Vec<String> {
    text.iter().map(|s| s.to_string()).collect()
}

fn fails(text: &[&str]) -> ParseError {
    match load(&lines(text), at(1)) {
        Ok(_) => panic!("the lines were read"),
        Err(e) => e,
    }
}

#[test]
fn todo_lines_are_read() {
    let e = read_todo("TODO(): buy milk").unwrap();
    assert_eq!((e.depth, e.active, e.text.as_str()), (0, false, "buy milk"));
    let e = read_todo("        TODO(*):   spaced  ").unwrap();
    assert_eq!((e.depth, e.active, e.text.as_str()), (2, true, "spaced"));
    let e = read_todo("TODO(): ").unwrap();
    assert_eq!((e.depth, e.active, e.text.as_str()), (0, false, ""));
    assert!(read_todo("TODO():x").is_none());
    assert!(read_todo("TODO(x): a").is_none());
    assert!(read_todo("  TODO(): a").is_none());
    assert!(read_todo("DONE(2024-01-31 09:30 +0100): a").is_none());
    assert!(read_todo("").is_none());
    assert!(read_todo("    ").is_none());
}

#[test]
fn done_lines_are_read() {
    let e = read_done("    DONE(2024-01-31 09:30 +0100): a): b").unwrap();
    assert_eq!(e.depth, 1);
    assert_eq!(e.stamp, "2024-01-31 09:30 +0100");
    assert_eq!(e.text, "a): b");
    assert!(read_done("DONE(2024-01-31 09:30 +0100):a").is_none());
    assert!(read_done("DONE 2024").is_none());
    assert!(read_done("TODO(): a").is_none());
    assert!(read_done("   DONE(x): a").is_none());
}

#[test]
fn lines_are_written() {
    assert_eq!(write_todo(0, false, "a"), "TODO(): a");
    assert_eq!(write_todo(2, true, "a b"), "        TODO(*): a b");
    assert_eq!(write_done(1, "2024-01-31 09:30 +0100", "x"), "    DONE(2024-01-31 09:30 +0100): x");
}

#[test]
fn the_separator_is_one_exact_line() {
    assert!(is_separator("<--->"));
    assert!(!is_separator("<---> "));
    assert!(!is_separator(" <--->"));
    assert!(!is_separator("<-->"));
    assert!(!is_separator(""));
}

#[test]
fn indentation_comes_in_fours() {
    assert_eq!(line_depth("x"), Some(0));
    assert_eq!(line_depth("    x"), Some(1));
    assert_eq!(line_depth("            x"), Some(3));
    assert_eq!(line_depth("  x"), None);
    assert_eq!(line_depth("     x"), None);
    assert_eq!(line_depth("    "), None);
    assert_eq!(line_depth(""), None);
    assert_eq!(line_depth("    \tx"), None);
}

#[test]
fn both_lists_are_read() {
    let (todos, dones) = load(
        &lines(&[
            "TODO(*): a",
            "    TODO(): a1",
            "    TODO(*): a2",
            "        TODO(*): a21",
            "TODO(): b",
            "<--->",
            "DONE(2024-01-31 09:30 +0100): c",
            "    DONE(2024-02-01 10:00 +0000): c1",
        ]),
        at(7),
    )
    .unwrap();
    assert_eq!(todos.len(), 5);
    assert_eq!(todos.cursor(), 0);
    assert_eq!(todos.history_len(), 0);
    let counts: Vec<usize> = (0..5).map(|i| todos.get(i).unwrap().active_count()).collect();
    assert_eq!(counts, vec![2, 0, 2, 1, 0]);
    let parents: Vec<Option<usize>> = (0..5).map(|i| todos.get(i).unwrap().get_parent()).collect();
    assert_eq!(parents, vec![None, Some(0), Some(0), Some(2), None]);
    assert_eq!(todos.get(0).unwrap().get_children(), &vec![1, 2]);
    assert_eq!(todos.get(2).unwrap().get_children(), &vec![3]);
    assert_eq!(todos.get(3).unwrap().get_timestamp(), at(7));
    assert_eq!(dones.len(), 2);
    assert_eq!(dones.get(0).unwrap().get_text(), "c");
    assert_eq!(dones.get(1).unwrap().get_parent(), Some(0));
    assert_eq!(dones.get(0).unwrap().active_count(), 0);
    assert_eq!(
        dones.get(0).unwrap().get_timestamp(),
        Timestamp { secs: 1706689800, nanos: 0, offset: 3600 }
    );
    assert_eq!(
        dones.get(1).unwrap().get_timestamp(),
        Timestamp { secs: 1706781600, nanos: 0, offset: 0 }
    );
    assert_eq!(dones.get(0).unwrap().get_date(), Some("24-01-31".to_string()));
}

#[test]
fn an_unstarred_parent_of_an_active_subtask_counts_as_active() {
    let (todos, _) = load(&lines(&["TODO(): a", "    TODO(): a1", "        TODO(*): a11"]), at(7)).unwrap();
    let counts: Vec<usize> = (0..3).map(|i| todos.get(i).unwrap().active_count()).collect();
    assert_eq!(counts, vec![2, 2, 1]);
}

#[test]
fn nothing_gives_two_empty_lists() {
    let (todos, dones) = load(&Vec::new(), at(7)).unwrap();
    assert_eq!((todos.len(), dones.len()), (0, 0));
    let (todos, dones) = load(&lines(&["<--->"]), at(7)).unwrap();
    assert_eq!((todos.len(), dones.len()), (0, 0));
}

#[test]
fn bad_lines_are_reported_with_their_number() {
    assert_eq!(
        fails(&["TODO(): a", "<--->", "<--->"]),
        ParseError { line: 3, kind: ParseErrorKind::InvalidSeparator }
    );
    assert_eq!(
        fails(&["TODO(): a", "  TODO(): b"]),
        ParseError { line: 2, kind: ParseErrorKind::InvalidIndentation }
    );
    assert_eq!(fails(&[""]), ParseError { line: 1, kind: ParseErrorKind::InvalidIndentation });
    assert_eq!(
        fails(&["TODO(): a", "        TODO(): b"]),
        ParseError { line: 2, kind: ParseErrorKind::InvalidIndentation }
    );
    assert_eq!(
        fails(&["    TODO(): a"]),
        ParseError { line: 1, kind: ParseErrorKind::InvalidIndentation }
    );
    assert_eq!(
        fails(&["TODO(): a", "TODO: b"]),
        ParseError { line: 2, kind: ParseErrorKind::InvalidTodo }
    );
    assert_eq!(
        fails(&["DONE(2024-01-31 09:30 +0100): a"]),
        ParseError { line: 1, kind: ParseErrorKind::InvalidTodo }
    );
    assert_eq!(
        fails(&["<--->", "TODO(): a"]),
        ParseError { line: 2, kind: ParseErrorKind::InvalidDone }
    );
    assert_eq!(
        fails(&["<--->", "DONE(yesterday): a"]),
        ParseError { line: 2, kind: ParseErrorKind::InvalidDate }
    );
    assert_eq!(
        fails(&["<--->", "DONE(24-01-31): a"]),
        ParseError { line: 2, kind: ParseErrorKind::InvalidDate }
    );
    assert_eq!(
        fails(&["<--->", "DONE(2024-01-31 09:30 +0100): a", "        DONE(2024-01-31 09:30 +0100): b"]),
        ParseError { line: 3, kind: ParseErrorKind::InvalidIndentation }
    );
}

#[test]
fn errors_have_words() {
    assert_eq!(ParseErrorKind::InvalidSeparator.message(), "invalid separator");
    assert_eq!(ParseErrorKind::InvalidIndentation.message(), "invalid indentation");
    assert_eq!(ParseErrorKind::InvalidTodo.message(), "invalid format for a TODO item");
    assert_eq!(ParseErrorKind::InvalidDone.message(), "invalid format for a DONE item");
    assert_eq!(ParseErrorKind::InvalidDate.message(), "invalid date format for a DONE item");
}

#[test]
fn what_is_written_reads_back() {
    let text = lines(&[
        "TODO(*): a",
        "    TODO(): a1",
        "    TODO(*): a2",
        "        TODO(*): a): 21",
        "TODO(): b",
        "<--->",
        "DONE(2024-01-31 09:30 +0100): c): d",
        "    DONE(2024-02-01 10:00 -0330): c1",
    ]);
    let (todos, dones) = load(&text, at(7)).unwrap();
    let written = save(&todos, &dones).unwrap();
    assert_eq!(written, text);
    let (again, done_again) = load(&written, at(7)).unwrap();
    assert_eq!(again.len(), todos.len());
    for i in 0..todos.len() {
        assert!(again.get(i).unwrap().same_as(todos.get(i).unwrap()));
    }
    for i in 0..dones.len() {
        assert!(done_again.get(i).unwrap().same_as(dones.get(i).unwrap()));
    }
}

#[test]
fn a_timestamp_outside_the_calendar_cannot_be_stored() {
    let (mut todos, _) = load(&lines(&["TODO(): a"]), Timestamp { secs: i64::MAX, nanos: 0, offset: 0 }).unwrap();
    let mut dones = todors::list::List::new();
    assert_eq!(todos.transfer(&mut dones, Timestamp { secs: i64::MAX, nanos: 0, offset: 0 }), Ok(()));
    assert_eq!(save(&todos, &dones), None);
    assert_eq!(dones.get(0).unwrap().get_date(), None);
    let mut more = todors::list::List::new();
    assert_eq!(dones.transfer(&mut more, Timestamp { secs: 0, nanos: 0, offset: 90000 }), Ok(()));
    assert_eq!(save(&todos, &more), None);
}

#[test]
fn seconds_are_not_stored() {
    let (mut todos, _) = load(&lines(&["TODO(): a"]), at(7)).unwrap();
    let mut dones = todors::list::List::new();
    assert_eq!(todos.transfer(&mut dones, Timestamp { secs: 1706689859, nanos: 5, offset: -3600 }), Ok(()));
    let written = save(&todos, &dones).unwrap();
    assert_eq!(written, lines(&["<--->", "DONE(2024-01-31 07:30 -0100): a"]));
    let (_, back) = load(&written, at(7)).unwrap();
    assert_eq!(back.get(0).unwrap().get_timestamp(), Timestamp { secs: 1706689800, nanos: 0, offset: -3600 });
}

#[test]
fn items_are_placed_by_depth_and_counted_afterwards() {
    let mut list: Vec<Item> = Vec::new();
    assert!(!place(&mut list, 1, "x".to_string(), at(1), true));
    assert!(place(&mut list, 0, "a".to_string(), at(1), false));
    assert!(place(&mut list, 1, "a1".to_string(), at(2), false));
    assert!(!place(&mut list, 3, "x".to_string(), at(1), true));
    assert!(place(&mut list, 2, "a11".to_string(), at(3), true));
    assert!(place(&mut list, 1, "a2".to_string(), at(4), true));
    assert!(place(&mut list, 0, "b".to_string(), at(5), false));
    let parents: Vec<Option<usize>> = list.iter().map(|i| i.get_parent()).collect();
    assert_eq!(parents, vec![None, Some(0), Some(1), Some(0), None]);
    assert_eq!(list[0].get_children(), &vec![1, 3]);
    let counts: Vec<usize> = list.iter().map(|i| i.active_count()).collect();
    assert_eq!(counts, vec![0, 0, 1, 1, 0]);
    recount(&mut list);
    let counts: Vec<usize> = list.iter().map(|i| i.active_count()).collect();
    assert_eq!(counts, vec![3, 2, 1, 1, 0]);
    assert_eq!(list[3].get_timestamp(), at(4));
}

#[test]
fn a_timestamp_must_not_hold_what_ends_it() {
    assert!(stamp_closes_once("2024-01-31 09:30 +0100"));
    assert!(stamp_closes_once(""));
    assert!(!stamp_closes_once("a): b"));
    assert!(!stamp_closes_once("): "));
    assert!(stamp_closes_once("a)"));
    assert!(stamp_closes_once("a):"));
    assert!(stamp_closes_once("a) : b"));
    let e = read_done("DONE(a):): x").unwrap();
    assert_eq!((e.stamp.as_str(), e.text.as_str()), ("a):", "x"));
}

#[test]
fn lists_are_written_only_if_they_read_back() {
    let text = lines(&[
        "TODO(*): a",
        "    TODO(): a1",
        "    TODO(*): a): 2",
        "<--->",
        "DONE(2024-01-31 09:30 +0100): c",
        "    DONE(2024-02-01 10:00 -0330): c1",
    ]);
    let (mut todos, mut dones) = load(&text, at(7)).unwrap();
    let written = save_readable(&todos, &dones).unwrap();
    assert_eq!(written, text);
    let (again, done_again) = load(&written, at(7)).unwrap();
    for i in 0..todos.len() {
        assert!(again.get(i).unwrap().same_as(todos.get(i).unwrap()));
    }
    for i in 0..dones.len() {
        assert!(done_again.get(i).unwrap().same_as(dones.get(i).unwrap()));
    }
    let mut cur: usize = 0;
    todos.edit_with(&mut cur, EditKey::Char(' '));
    assert_eq!(save_readable(&todos, &dones), None);
    assert!(save(&todos, &dones).is_some());
    todos.edit_with(&mut cur, EditKey::Backspace);
    assert!(save_readable(&todos, &dones).is_some());
    dones.last(true);
    let mut end: usize = 9;
    dones.edit_with(&mut end, EditKey::Char(' '));
    assert_eq!(save_readable(&todos, &dones), None);
    dones.edit_with(&mut end, EditKey::Backspace);
    let mut far = todors::list::List::new();
    dones.first();
    assert_eq!(dones.transfer(&mut far, Timestamp { secs: i64::MAX, nanos: 0, offset: 0 }), Ok(()));
    assert_eq!(save_readable(&todos, &far), None);
}
