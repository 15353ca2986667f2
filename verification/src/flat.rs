//! The plain variant of the two lists: items without subtasks, kept in
//! vectors that the caller owns, with a bounded history of snapshots.

use vstd::prelude::*;
use vstd::string::*;
use crate::codec::{close, done_open, has_at, todo_plain};
use crate::text::{edit_text, edited_cursor, edited_text, EditKey, from_chars, to_chars};

verus! {

/// The largest number of snapshots a history keeps.
pub const MAX_STACK_SIZE: usize = 20;

/// Which of the two lists has the focus.
#[derive(Clone, Copy, Debug, PartialEq, Eq, Structural)]
pub enum Panel {
    Todo,
    Done,
}

impl Panel {
    /// The other panel.
    pub open spec fn other(self) -> Panel {
        match self {
            Panel::Todo => Panel::Done,
            Panel::Done => Panel::Todo,
        }
    }

    /// The other panel.
    pub fn togle(&self) -> (p: Panel)
        ensures
            p == self.other(),
    {
        match self {
            Panel::Todo => Panel::Done,
            Panel::Done => Panel::Todo,
        }
    }
}

/// What an operation did.
#[derive(Clone, Copy, Debug, PartialEq, Eq, Structural)]
pub enum Action {
    Delete,
    DragUp,
    DragDown,
    Move,
}

impl Action {
    /// The name of the action as the status line shows it.
    pub open spec fn label(self) -> Seq<char> {
        match self {
            Action::Delete => "Delete"@,
            Action::DragUp => "Drag up"@,
            Action::DragDown => "Drag down"@,
            Action::Move => "Move"@,
        }
    }

    /// The name of the action as the status line shows it.
    pub fn to_string(&self) -> (s: String)
        ensures
            s@ == self.label(),
    {
        match self {
            Action::Delete => "Delete".to_string(),
            Action::DragUp => "Drag up".to_string(),
            Action::DragDown => "Drag down".to_string(),
            Action::Move => "Move".to_string(),
        }
    }
}

/// One operation as the history remembers it.
#[derive(Clone, Copy, Debug, PartialEq, Eq, Structural)]
pub struct Operation {
    pub action: Action,
    pub cur: usize,
    pub panel: Panel,
}

impl Operation {
    /// The record of `action` with the cursor at `cur` in the list in `panel`.
    pub fn new(action: Action, cur: usize, panel: Panel) -> (op: Self)
        ensures
            op == (Operation { action, cur, panel }),
    {
        Self { action, cur, panel }
    }
}

/// Moves the cursor to the first item.
pub fn list_first(cur: &mut usize)
    ensures
        *final(cur) == 0,
{
    if *cur != 0 {
        *cur = 0;
    }
}

/// One task: its text, and the date it was completed on, as `YY-MM-DD`.
#[derive(Debug)]
pub struct Item {
    pub text: String,
    pub date: String,
}

/// What an item holds, as mathematical values.
pub ghost struct ItemView {
    pub text: Seq<char>,
    pub date: Seq<char>,
}

impl View for Item {
    type V = ItemView;

    open spec fn view(&self) -> ItemView {
        ItemView { text: self.text@, date: self.date@ }
    }
}

impl Clone for Item {
    fn clone(&self) -> (out: Self)
        ensures
            out@ == self@,
    {
        Item { text: self.text.clone(), date: self.date.clone() }
    }
}

impl Item {
    /// An item with this text and date.
    pub fn new(text: String, date: String) -> (item: Self)
        ensures
            item@ == (ItemView { text: text@, date: date@ }),
    {
        Self { text, date }
    }
}

/// The views of the items.
pub open spec fn views(list: Seq<Item>) -> Seq<ItemView> {
    Seq::new(list.len(), |i: int| list[i]@)
}

/// The views of the snapshots.
pub open spec fn stack_views(stack: Seq<Vec<Item>>) -> Seq<Seq<ItemView>> {
    Seq::new(stack.len(), |i: int| views(stack[i]@))
}

/// Where a cursor at `cur` stands in a list that has `len` items left after
/// the item under it is gone.
pub open spec fn settled(cur: usize, len: nat) -> int {
    if len == 0 {
        0
    } else if cur < len {
        cur as int
    } else {
        len - 1
    }
}

/// The newest `n` of the snapshots, or all of them if there are no more.
pub open spec fn newest(stack: Seq<Seq<ItemView>>, n: int) -> Seq<Seq<ItemView>> {
    if stack.len() > n {
        stack.skip(stack.len() - n)
    } else {
        stack
    }
}

/// Puts a copy of `list` on top of `stack`. A stack that is full drops its
/// oldest snapshot for it, so undo always goes back to the state before the
/// last operation.
pub fn list_record_state(stack: &mut Vec<Vec<Item>>, list: &[Item])
    ensures
        stack_views(final(stack)@) == newest(
            stack_views(old(stack)@).push(views(list@)),
            MAX_STACK_SIZE as int,
        ),
{
    let mut copy: Vec<Item> = Vec::new();
    let mut i: usize = 0;
    while i < list.len()
        invariant
            i <= list.len(),
            copy.len() == i,
            forall|t: int| 0 <= t < i ==> copy@[t]@ == list@[t]@,
        decreases list.len() - i,
    {
        copy.push(list[i].clone());
        i += 1;
    }
    assert(views(copy@) =~= views(list@));
    stack.push(copy);
    let ghost pushed = stack_views(stack@);
    assert(pushed =~= stack_views(old(stack)@).push(views(list@)));
    if stack.len() > MAX_STACK_SIZE {
        let extra: usize = stack.len() - MAX_STACK_SIZE;
        let kept = stack.split_off(extra);
        *stack = kept;
        assert(stack_views(stack@) =~= pushed.skip(pushed.len() - MAX_STACK_SIZE));
    }
}

/// Replaces `list` by the snapshot on top of `stack`.
pub fn list_revert_state(stack: &mut Vec<Vec<Item>>, list: &mut Vec<Item>) -> (r: Result<
    (),
    &'static str,
>)
    ensures
        old(stack).len() > 0 ==> r is Ok && views(final(list)@) == stack_views(old(stack)@).last()
            && stack_views(final(stack)@) == stack_views(old(stack)@).drop_last(),
        old(stack).len() == 0 ==> (r matches Err(m) && m@ == "Nothing to undo."@) && final(list)@ == old(list)@ && final(stack)@ == old(stack)@,
{
    match stack.pop() {
        Some(top) => {
            *list = top;
            assert(stack_views(stack@) =~= stack_views(old(stack)@).drop_last());
            Ok(())
        },
        None => Err("Nothing to undo."),
    }
}

/// Moves the cursor one item up.
pub fn list_up(list: &Vec<Item>, cur: &mut usize)
    ensures
        *final(cur) == if *old(cur) > 0 && list.len() > 0 {
            *old(cur) - 1
        } else {
            *old(cur) as int
        },
{
    if *cur > 0 && list.len() > 0 {
        *cur -= 1;
    }
}

/// Moves the cursor one item down, not past the last item.
pub fn list_down(list: &Vec<Item>, cur: &mut usize)
    ensures
        *final(cur) == if list.len() == 0 {
            *old(cur) as int
        } else if *old(cur) + 1 < list.len() {
            *old(cur) + 1
        } else {
            list.len() - 1
        },
{
    if list.len() > 0 {
        if *cur < list.len() - 1 {
            *cur += 1;
        } else {
            *cur = list.len() - 1;
        }
    }
}

/// Lets the item under the cursor change places with the item before it.
pub fn list_drag_up(list: &mut Vec<Item>, cur: &mut usize) -> (r: Result<(), &'static str>)
    requires
        old(list).len() > 1 && *old(cur) != 0 ==> *old(cur) < old(list).len(),
    ensures
        *old(cur) != 0 && old(list).len() > 1 ==> r is Ok && *final(cur) == *old(cur) - 1 && final(list)@
            == old(list)@.update(*old(cur) - 1, old(list)@[*old(cur) as int]).update(
            *old(cur) as int,
            old(list)@[*old(cur) - 1],
        ),
        !(*old(cur) != 0 && old(list).len() > 1) ==> (r matches Err(m) && m@
            == "Can't drag up. Item is already at the top."@) && *final(cur) == *old(cur) && final(list)@
            == old(list)@,
{
    if *cur != 0 && list.len() > 1 {
        let item = list.remove(*cur);
        *cur -= 1;
        list.insert(*cur, item);
        assert(list@ =~= old(list)@.update(*old(cur) - 1, old(list)@[*old(cur) as int]).update(
            *old(cur) as int,
            old(list)@[*old(cur) - 1],
        ));
        Ok(())
    } else {
        Err("Can't drag up. Item is already at the top.")
    }
}

/// Lets the item under the cursor change places with the item behind it.
pub fn list_drag_down(list: &mut Vec<Item>, cur: &mut usize) -> (r: Result<(), &'static str>)
    ensures
        *old(cur) + 1 < old(list).len() ==> r is Ok && *final(cur) == *old(cur) + 1 && final(list)@
            == old(list)@.update(*old(cur) + 1, old(list)@[*old(cur) as int]).update(
            *old(cur) as int,
            old(list)@[*old(cur) + 1],
        ),
        !(*old(cur) + 1 < old(list).len()) ==> (r matches Err(m) && m@
            == "Can't drag down. Item is already at the bottom."@) && *final(cur) == *old(cur) && final(list)@ == old(list)@,
{
    if list.len() > 1 && *cur < list.len() - 1 {
        let item = list.remove(*cur);
        *cur += 1;
        list.insert(*cur, item);
        assert(list@ =~= old(list)@.update(*old(cur) + 1, old(list)@[*old(cur) as int]).update(
            *old(cur) as int,
            old(list)@[*old(cur) + 1],
        ));
        Ok(())
    } else {
        Err("Can't drag down. Item is already at the bottom.")
    }
}

/// Moves the cursor to the last item.
pub fn list_last(list: &Vec<Item>, cur: &mut usize)
    ensures
        *final(cur) == if list.len() > 0 {
            list.len() - 1
        } else {
            *old(cur) as int
        },
{
    if list.len() > 0 {
        *cur = list.len() - 1;
    }
}

/// Puts a new, empty item before the item under the cursor.
pub fn list_insert(list: &mut Vec<Item>, cur: &mut usize)
    requires
        *old(cur) <= old(list).len(),
    ensures
        *final(cur) == *old(cur),
        views(final(list)@) == views(old(list)@).insert(
            *old(cur) as int,
            ItemView { text: Seq::empty(), date: Seq::empty() },
        ),
{
    let item = Item::new(String::new(), String::new());
    assert(item@.text =~= Seq::<char>::empty() && item@.date =~= Seq::<char>::empty());
    list.insert(*cur, item);
    assert(views(list@) =~= views(old(list)@).insert(
        *old(cur) as int,
        ItemView { text: Seq::empty(), date: Seq::empty() },
    ));
}

/// Deletes the item under the cursor.
pub fn list_delete(list: &mut Vec<Item>, cur: &mut usize) -> (r: Result<(), &'static str>)
    ensures
        *old(cur) < old(list).len() ==> r is Ok && final(list)@ == old(list)@.remove(*old(cur) as int)
            && *final(cur) == settled(*old(cur), final(list)@.len()),
        *old(cur) >= old(list).len() ==> (r matches Err(m) && m@ == "Can't delete item. List is empty."@)
            && final(list)@ == old(list)@ && *final(cur) == *old(cur),
{
    if *cur < list.len() {
        let gone = list.remove(*cur);
        if list.len() > 0 {
            if *cur > list.len() - 1 {
                *cur = list.len() - 1;
            }
        } else {
            *cur = 0;
        }
        Ok(())
    } else {
        Err("Can't delete item. List is empty.")
    }
}

/// Applies one keystroke, if there is one, to the text of `item`, with the
/// text cursor at `cur`. Without a keystroke the cursor is only brought back
/// into the text.
pub fn list_edit(item: &mut Item, cur: &mut usize, key: Option<EditKey>)
    ensures
        final(item)@.date == old(item)@.date,
        final(item)@.text == edited_text(
            old(item)@.text,
            *old(cur),
            match key {
                Some(k) => k,
                None => EditKey::Other,
            },
        ),
        *final(cur) == edited_cursor(
            old(item)@.text,
            *old(cur),
            match key {
                Some(k) => k,
                None => EditKey::Other,
            },
        ),
{
    match key {
        Some(k) => edit_text(&mut item.text, cur, k),
        None => edit_text(&mut item.text, cur, EditKey::Other),
    }
}

/// Moves the item under the cursor of `from` to the end of `to`.
pub fn list_move(from: &mut Vec<Item>, to: &mut Vec<Item>, cur: &mut usize) -> (r: Result<
    (),
    &'static str,
>)
    ensures
        *old(cur) < old(from).len() ==> r is Ok && final(from)@ == old(from)@.remove(*old(cur) as int)
            && final(to)@ == old(to)@.push(old(from)@[*old(cur) as int]) && *final(cur) == settled(
            *old(cur),
            final(from)@.len(),
        ),
        *old(cur) >= old(from).len() ==> (r matches Err(m) && m@ == "Can't move item. List is empty."@)
            && final(from)@ == old(from)@ && final(to)@ == old(to)@ && *final(cur) == *old(cur),
{
    if *cur < from.len() {
        to.push(from.remove(*cur));
        if from.len() > 0 {
            if *cur > from.len() - 1 {
                *cur = from.len() - 1;
            }
        } else {
            *cur = 0;
        }
        Ok(())
    } else {
        Err("Can't move item. List is empty.")
    }
}

/// Whether `c` is one of the digits `0` to `9`.
pub open spec fn is_digit(c: char) -> bool {
    '0' <= c <= '9'
}

/// Whether `s` is a date as the stored form writes it: `NN-NN-NN`.
pub open spec fn is_short_date(s: Seq<char>) -> bool {
    &&& s.len() == 8
    &&& is_digit(s[0]) && is_digit(s[1]) && s[2] == '-'
    &&& is_digit(s[3]) && is_digit(s[4]) && s[5] == '-'
    &&& is_digit(s[6]) && is_digit(s[7])
}

/// What one stored line says: the list it belongs to, and the item. A line
/// of the active list is `TODO(): ` and the text; a line of the completed
/// list is `DONE(`, the date, `): ` and the text.
pub open spec fn flat_entry(line: Seq<char>) -> Option<(Panel, ItemView)> {
    if has_at(line, 0, todo_plain()) {
        Some((Panel::Todo, ItemView { text: line.skip(8), date: Seq::empty() }))
    } else if has_at(line, 0, done_open()) && line.len() >= 16 && is_short_date(line.subrange(5, 13))
        && has_at(line, 13, close()) {
        Some((Panel::Done, ItemView { text: line.skip(16), date: line.subrange(5, 13) }))
    } else {
        None
    }
}

/// The items that the lines hold for the list in `panel`, in their order.
/// Reading ends at the first line that says nothing.
pub open spec fn flat_items(lines: Seq<Seq<char>>, panel: Panel) -> Seq<ItemView>
    decreases lines.len(),
{
    if lines.len() == 0 {
        Seq::empty()
    } else if first_bad(lines.drop_last()) < lines.len() - 1 {
        flat_items(lines.drop_last(), panel)
    } else {
        match flat_entry(lines.last()) {
            Some((p, item)) => if p == panel {
                flat_items(lines.drop_last(), panel).push(item)
            } else {
                flat_items(lines.drop_last(), panel)
            },
            None => flat_items(lines.drop_last(), panel),
        }
    }
}

/// The position of the first line that says nothing, or the number of lines
/// if there is none.
pub open spec fn first_bad(lines: Seq<Seq<char>>) -> int
    decreases lines.len(),
{
    if lines.len() == 0 {
        0
    } else if first_bad(lines.drop_last()) < lines.len() - 1 {
        first_bad(lines.drop_last())
    } else if flat_entry(lines.last()) is None {
        lines.len() - 1
    } else {
        lines.len() as int
    }
}

/// The lines as sequences of characters.
pub open spec fn line_texts(lines: Seq<String>) -> Seq<Seq<char>> {
    Seq::new(lines.len(), |i: int| lines[i]@)
}

/// Reads one stored line.
fn read_line(line: &str) -> (r: Option<(Panel, Item)>)
    ensures
        match r {
            Some((p, item)) => flat_entry(line@) == Some((p, item@)),
            None => flat_entry(line@) is None,
        },
{
    let chars = to_chars(line);
    let n: usize = chars.len();
    let plain: Vec<char> = vec!['T', 'O', 'D', 'O', '(', ')', ':', ' '];
    let open: Vec<char> = vec!['D', 'O', 'N', 'E', '('];
    let shut: Vec<char> = vec![')', ':', ' '];
    assert(plain@ =~= todo_plain());
    assert(open@ =~= done_open());
    assert(shut@ =~= close());
    if stands(&chars, 0, &plain) {
        assert(plain@.len() == 8);
        let text = from_chars(&chars, 8, n);
        assert(chars@.subrange(8, n as int) =~= chars@.skip(8));
        Some((Panel::Todo, Item::new(text, String::new())))
    } else if stands(&chars, 0, &open) && n >= 16 && digit(chars[5]) && digit(chars[6]) && chars[7]
        == '-' && digit(chars[8]) && digit(chars[9]) && chars[10] == '-' && digit(chars[11])
        && digit(chars[12]) && stands(&chars, 13, &shut) {
        let date = from_chars(&chars, 5, 13);
        let text = from_chars(&chars, 16, n);
        assert(chars@.subrange(16, n as int) =~= chars@.skip(16));
        Some((Panel::Done, Item::new(text, date)))
    } else {
        None
    }
}

/// Whether `c` is one of the digits `0` to `9`.
fn digit(c: char) -> (b: bool)
    ensures
        b == is_digit(c),
{
    '0' <= c && c <= '9'
}

/// Whether `pat` stands in `chars` at position `at`.
fn stands(chars: &Vec<char>, at: usize, pat: &Vec<char>) -> (b: bool)
    ensures
        b == has_at(chars@, at as int, pat@),
{
    if pat.len() > chars.len() || at > chars.len() - pat.len() {
        return false;
    }
    let mut i: usize = 0;
    while i < pat.len()
        invariant
            i <= pat.len(),
            at + pat.len() <= chars.len(),
            forall|j: int| 0 <= j < i ==> #[trigger] chars@[at + j] == pat@[j],
        decreases pat.len() - i,
    {
        if chars[at + i] != pat[i] {
            assert(chars@.subrange(at as int, at + pat.len())[i as int] != pat@[i as int]);
            return false;
        }
        i += 1;
    }
    assert forall|j: int| 0 <= j < pat.len() implies chars@.subrange(at as int, at + pat.len())[j]
        == pat@[j] by {
        assert(chars@[at + j] == pat@[j]);
    }
    assert(chars@.subrange(at as int, at + pat.len()) =~= pat@);
    true
}

/// Reads the stored lines, and adds the items they hold to the two lists.
/// Reading ends at the first line that says nothing: the result is its
/// number, the first line being 1.
pub fn parse_items(lines: &Vec<String>, todos: &mut Vec<Item>, dones: &mut Vec<Item>) -> (r: Result<
    (),
    usize,
>)
    ensures
        views(final(todos)@) == views(old(todos)@) + flat_items(line_texts(lines@), Panel::Todo),
        views(final(dones)@) == views(old(dones)@) + flat_items(line_texts(lines@), Panel::Done),
        match r {
            Ok(_) => first_bad(line_texts(lines@)) == lines.len(),
            Err(number) => number == first_bad(line_texts(lines@)) + 1 && number <= lines.len(),
        },
{
    let ghost all = line_texts(lines@);
    let mut i: usize = 0;
    assert(flat_items(all.take(0), Panel::Todo) =~= Seq::empty());
    assert(flat_items(all.take(0), Panel::Done) =~= Seq::empty());
    while i < lines.len()
        invariant
            i <= lines.len(),
            all == line_texts(lines@),
            first_bad(all.take(i as int)) == i,
            views(todos@) =~= views(old(todos)@) + flat_items(all.take(i as int), Panel::Todo),
            views(dones@) =~= views(old(dones)@) + flat_items(all.take(i as int), Panel::Done),
        decreases lines.len() - i,
    {
        proof {
            assert(all.take(i + 1).drop_last() =~= all.take(i as int));
            assert(all.take(i + 1).last() == lines@[i as int]@);
        }
        match read_line(lines[i].as_str()) {
            Some((Panel::Todo, item)) => {
                assert(flat_items(all.take(i + 1), Panel::Todo) == flat_items(
                    all.take(i as int),
                    Panel::Todo,
                ).push(item@));
                assert(flat_items(all.take(i + 1), Panel::Done) == flat_items(
                    all.take(i as int),
                    Panel::Done,
                ));
                let ghost got = flat_items(all.take(i as int), Panel::Todo);
                let ghost was = views(todos@);
                todos.push(item);
                assert(views(todos@) =~= was.push(item@));
                assert(was.push(item@) =~= views(old(todos)@) + got.push(item@));
            },
            Some((Panel::Done, item)) => {
                assert(flat_items(all.take(i + 1), Panel::Done) == flat_items(
                    all.take(i as int),
                    Panel::Done,
                ).push(item@));
                assert(flat_items(all.take(i + 1), Panel::Todo) == flat_items(
                    all.take(i as int),
                    Panel::Todo,
                ));
                let ghost got = flat_items(all.take(i as int), Panel::Done);
                let ghost was = views(dones@);
                dones.push(item);
                assert(views(dones@) =~= was.push(item@));
                assert(was.push(item@) =~= views(old(dones)@) + got.push(item@));
            },
            None => {
                proof {
                    lemma_bad_line_ends(all, i + 1);
                }
                return Err(i + 1);
            },
        }
        i += 1;
    }
    assert(all.take(i as int) =~= all);
    Ok(())
}

/// Lines behind the first one that says nothing are not read.
pub proof fn lemma_bad_line_ends(lines: Seq<Seq<char>>, upto: int)
    requires
        0 < upto <= lines.len(),
        first_bad(lines.take(upto)) == upto - 1,
    ensures
        first_bad(lines) == upto - 1,
        flat_items(lines, Panel::Todo) == flat_items(lines.take(upto), Panel::Todo),
        flat_items(lines, Panel::Done) == flat_items(lines.take(upto), Panel::Done),
    decreases lines.len() - upto,
{
    if upto < lines.len() {
        assert(lines.take(upto + 1).drop_last() =~= lines.take(upto));
        let next = lines.take(upto + 1);
        assert(first_bad(next) == upto - 1);
        lemma_bad_line_goes_on(lines, upto + 1, upto - 1);
    } else {
        assert(lines.take(upto) =~= lines);
    }
}

/// Lines behind a line that says nothing change neither where reading ends nor
/// what was read.
proof fn lemma_bad_line_goes_on(lines: Seq<Seq<char>>, upto: int, bad: int)
    requires
        0 < upto <= lines.len(),
        first_bad(lines.take(upto)) == bad,
        bad < upto - 1,
    ensures
        first_bad(lines) == bad,
        flat_items(lines, Panel::Todo) == flat_items(lines.take(upto), Panel::Todo),
        flat_items(lines, Panel::Done) == flat_items(lines.take(upto), Panel::Done),
    decreases lines.len() - upto,
{
    if upto < lines.len() {
        assert(lines.take(upto + 1).drop_last() =~= lines.take(upto));
        lemma_bad_line_goes_on(lines, upto + 1, bad);
    } else {
        assert(lines.take(upto) =~= lines);
    }
}

/// The line of an item of the active list.
pub open spec fn flat_todo_line(item: ItemView) -> Seq<char> {
    todo_plain() + item.text
}

/// The line of an item of the completed list.
pub open spec fn flat_done_line(item: ItemView) -> Seq<char> {
    done_open() + item.date + close() + item.text
}

/// The stored lines of the two lists: the active items first.
pub open spec fn flat_lines(todos: Seq<ItemView>, dones: Seq<ItemView>) -> Seq<Seq<char>> {
    Seq::new(todos.len(), |i: int| flat_todo_line(todos[i])) + Seq::new(
        dones.len(),
        |i: int| flat_done_line(dones[i]),
    )
}

/// Writes the stored lines of the two lists.
pub fn dump_items(todos: &[Item], dones: &[Item]) -> (lines: Vec<String>)
    ensures
        line_texts(lines@) == flat_lines(views(todos@), views(dones@)),
{
    let mut lines: Vec<String> = Vec::new();
    let mut i: usize = 0;
    while i < todos.len()
        invariant
            i <= todos.len(),
            lines.len() == i,
            forall|t: int| 0 <= t < i ==> (#[trigger] lines@[t])@ == flat_todo_line(todos@[t]@),
        decreases todos.len() - i,
    {
        let mut line = String::from_str("TODO(): ");
        line.append(todos[i].text.as_str());
        proof {
            reveal_strlit("TODO(): ");
            assert("TODO(): "@ =~= todo_plain());
        }
        lines.push(line);
        i += 1;
    }
    let n: usize = i;
    let mut j: usize = 0;
    while j < dones.len()
        invariant
            n == todos.len(),
            j <= dones.len(),
            lines.len() == n + j,
            forall|t: int| 0 <= t < n ==> (#[trigger] lines@[t])@ == flat_todo_line(todos@[t]@),
            forall|t: int| 0 <= t < j ==> (#[trigger] lines@[n + t])@ == flat_done_line(dones@[t]@),
        decreases dones.len() - j,
    {
        let mut line = String::from_str("DONE(");
        line.append(dones[j].date.as_str());
        line.append("): ");
        line.append(dones[j].text.as_str());
        proof {
            reveal_strlit("DONE(");
            reveal_strlit("): ");
            assert("DONE("@ =~= done_open());
            assert("): "@ =~= close());
        }
        lines.push(line);
        j += 1;
    }
    proof {
        let want = flat_lines(views(todos@), views(dones@));
        assert(line_texts(lines@).len() == want.len());
        assert forall|t: int| 0 <= t < want.len() implies line_texts(lines@)[t] == want[t] by {
            if t >= n {
                assert(lines@[n + (t - n)]@ == flat_done_line(dones@[t - n]@));
            }
        }
        assert(line_texts(lines@) =~= want);
    }
    lines
}

} // verus!
