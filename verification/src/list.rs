//! One collection of items: the forest in its array, a cursor, and the
//! snapshots that undo goes back to.

use vstd::prelude::*;
use crate::activity::{
    activated, lemma_activation_step, lemma_marked, lemma_parent_of_active, lemma_same_links,
    marked, one_short, with_count,
};
use crate::edits::{
    grafted, leaf_fits, lemma_grafted, lemma_removed, lemma_swapped, lemma_with_leaf, rebased,
    removed, reordered, swapped, with_leaf,
};
use crate::forest::{
    children_listed, count_ok, is_block, lemma_block_closed, lemma_children_bound,
    lemma_subtree_end, moved, nested, par, relinked, rotated, subtree_end, subtree_size, views,
    well_formed,
};
use crate::text::{decode_key, edit_text, edited_cursor, edited_text, EditKey, key_meaning, trimmed};
use crate::timestamp::Timestamp;
use crate::item::{ints, Item, ItemView, opt_int};

verus! {

/// Why a list refused an operation.
#[derive(Clone, Copy, Debug, PartialEq, Eq, Structural)]
pub enum ListError {
    /// There is no item under the cursor.
    EmptyList,
    /// A new root cannot be placed inside the subtree of another item.
    CannotInsert,
    /// The item still has subtasks that are not complete.
    HasActiveSubtasks,
    /// No sibling stands before the item.
    AlreadyAtTop,
    /// No sibling stands after the item.
    AlreadyAtBottom,
    /// A subtask cannot move out from under its parent.
    CannotLeaveParent,
    /// Only root items move between lists.
    NotARoot,
    /// Only complete items move between lists.
    StillActive,
    /// No snapshot is left.
    NothingToUndo,
}

/// The items of a list and its cursor at one moment.
pub ghost struct Snapshot {
    pub items: Seq<ItemView>,
    pub cursor: int,
}

/// A list as mathematical values.
pub ghost struct ListView {
    /// The items, in pre-order.
    pub items: Seq<ItemView>,
    /// The position of the selected item; 0 in an empty list.
    pub cursor: int,
    /// The snapshots taken and not yet given back, the oldest first.
    pub history: Seq<Snapshot>,
}

/// One ordered collection of items with its cursor and undo history.
#[derive(Debug)]
pub struct List {
    pub(crate) state_stack: Vec<(Vec<Item>, usize)>,
    pub(crate) cur: usize,
    pub(crate) list: Vec<Item>,
}

/// The cursor points at an item, or the list is empty and the cursor is 0.
pub open spec fn cursor_ok(items: Seq<ItemView>, cursor: int) -> bool {
    if items.len() == 0 {
        cursor == 0
    } else {
        0 <= cursor < items.len()
    }
}

/// The items are well formed and the cursor is in place.
pub open spec fn state_ok(items: Seq<ItemView>, cursor: int) -> bool {
    well_formed(items) && cursor_ok(items, cursor)
}

/// Every snapshot is well formed, with its cursor in place.
pub open spec fn history_ok(history: Seq<Snapshot>) -> bool {
    forall|h: int| 0 <= h < history.len() ==> state_ok((#[trigger] history[h]).items, history[h].cursor)
}

/// The snapshots stored in a history stack.
pub open spec fn snapshots(stack: Seq<(Vec<Item>, usize)>) -> Seq<Snapshot> {
    Seq::new(stack.len(), |h: int| Snapshot { items: views(stack[h].0@), cursor: stack[h].1 as int })
}

/// The position of the last root before `upto`, or -1 if there is none.
pub open spec fn root_before(items: Seq<ItemView>, upto: int) -> int
    decreases upto,
{
    if upto <= 0 {
        -1
    } else if items[upto - 1].is_root() {
        upto - 1
    } else {
        root_before(items, upto - 1)
    }
}

/// The position of the first root at or after `from`, or the length of the
/// list if there is none.
pub open spec fn root_from(items: Seq<ItemView>, from: int) -> int
    decreases items.len() - from,
{
    if from >= items.len() {
        items.len() as int
    } else if items[from].is_root() {
        from
    } else {
        root_from(items, from + 1)
    }
}

/// The position of the last item before `upto` that has the same parent as
/// item `c`, or -1 if there is none.
pub open spec fn sibling_before(items: Seq<ItemView>, c: int, upto: int) -> int
    decreases upto,
{
    if upto <= 0 {
        -1
    } else if items[upto - 1].parent == items[c].parent {
        upto - 1
    } else {
        sibling_before(items, c, upto - 1)
    }
}

/// The position of the sibling that stands right before item `c`, or -1 if
/// `c` is the first subtask of its parent, or the first root.
pub open spec fn prev_sibling(items: Seq<ItemView>, c: int) -> int {
    sibling_before(items, c, c)
}

/// The position of the sibling that stands right behind item `c`, or -1 if
/// `c` is the last subtask of its parent, or the last root.
pub open spec fn next_sibling(items: Seq<ItemView>, c: int) -> int {
    let e = subtree_end(items, c);
    if e < items.len() && items[e].parent == items[c].parent {
        e
    } else {
        -1
    }
}

/// Where the cursor stands after the item under it is gone from a list that
/// has `len` items left: where it stood, or on the last item.
pub open spec fn clamped_cursor(cursor: int, len: int) -> int {
    if len == 0 {
        0
    } else if cursor < len {
        cursor
    } else {
        len - 1
    }
}

/// The rows that a view of the first `upto` items shows, each with the
/// position of its item and the item's depth. With `skip_children` only roots
/// are shown.
pub open spec fn rows_before(items: Seq<ItemView>, skip_children: bool, upto: int) -> Seq<
    (usize, usize),
>
    decreases upto,
{
    if upto <= 0 {
        Seq::<(usize, usize)>::empty()
    } else if skip_children && !items[upto - 1].is_root() {
        rows_before(items, skip_children, upto - 1)
    } else {
        rows_before(items, skip_children, upto - 1).push(
            ((upto - 1) as usize, depth(items, upto - 1) as usize),
        )
    }
}

/// The rows that a view of the list shows.
pub open spec fn rows(items: Seq<ItemView>, skip_children: bool) -> Seq<(usize, usize)> {
    rows_before(items, skip_children, items.len() as int)
}

/// The number of roots among the first `upto` items.
pub open spec fn roots_before(items: Seq<ItemView>, upto: int) -> nat
    decreases upto,
{
    if upto <= 0 {
        0
    } else {
        roots_before(items, upto - 1) + if items[upto - 1].is_root() {
            1nat
        } else {
            0nat
        }
    }
}

/// The number of roots in the list.
pub open spec fn root_count(items: Seq<ItemView>) -> nat {
    roots_before(items, items.len() as int)
}

/// The number of items that `full` shows: all of them, or the roots only.
pub open spec fn shown_count(items: Seq<ItemView>, full: bool) -> nat {
    if full {
        items.len()
    } else {
        root_count(items)
    }
}

/// The nesting depth of item `i`: 0 for a root.
pub open spec fn depth(items: Seq<ItemView>, i: int) -> nat
    decreases i,
{
    if 0 <= i < items.len() && 0 <= par(items, i) < i {
        depth(items, par(items, i)) + 1
    } else {
        0
    }
}

impl ListView {
    /// The items and every snapshot are well formed, each with its cursor in
    /// place.
    pub open spec fn wf(self) -> bool {
        &&& state_ok(self.items, self.cursor)
        &&& history_ok(self.history)
    }

    /// Where the cursor stands after a step up. In `full` mode it goes to the
    /// item before; else to the nearest root before it, if there is one.
    pub open spec fn up(self, full: bool) -> int {
        if self.cursor <= 0 {
            self.cursor
        } else if full {
            self.cursor - 1
        } else if root_before(self.items, self.cursor) >= 0 {
            root_before(self.items, self.cursor)
        } else {
            self.cursor
        }
    }

    /// Where the cursor stands after a step down. In `full` mode it goes to
    /// the item after, if there is one; else to the nearest root after it, if
    /// there is one.
    pub open spec fn down(self, full: bool) -> int {
        if self.items.len() == 0 {
            self.cursor
        } else if full {
            if self.cursor + 1 < self.items.len() {
                self.cursor + 1
            } else {
                self.items.len() - 1
            }
        } else if root_from(self.items, self.cursor + 1) < self.items.len() {
            root_from(self.items, self.cursor + 1)
        } else {
            self.cursor
        }
    }

    /// Whether `target` is the middle of the list: in `full` mode the item at
    /// half the length; else the root with half of the roots before it.
    pub open spec fn is_half(self, full: bool, target: int) -> bool {
        if self.items.len() == 0 {
            target == self.cursor
        } else if full {
            target == self.items.len() / 2
        } else {
            &&& 0 <= target < self.items.len()
            &&& self.items[target].is_root()
            &&& roots_before(self.items, target) == root_count(self.items) / 2
        }
    }

    /// Where the cursor stands after a jump to the bottom. In `full` mode it
    /// goes to the last item; else to the last root.
    pub open spec fn last(self, full: bool) -> int {
        if self.items.len() == 0 {
            self.cursor
        } else if full {
            self.items.len() - 1
        } else if root_before(self.items, self.items.len() as int) >= 0 {
            root_before(self.items, self.items.len() as int)
        } else {
            0
        }
    }

    /// How marking the item under the cursor ends: it fails on an empty list
    /// and on an item that has active subtasks.
    pub open spec fn mark_result(self) -> Result<(), ListError> {
        if self.items.len() == 0 {
            Err(ListError::EmptyList)
        } else if self.items[self.cursor].act_cnt > 1 {
            Err(ListError::HasActiveSubtasks)
        } else {
            Ok(())
        }
    }

    /// This list after the item under the cursor was marked at the time
    /// `now`; the list itself where marking fails.
    pub open spec fn marked(self, now: Timestamp) -> ListView {
        if self.mark_result() is Ok {
            ListView { items: marked(self.items, self.cursor, now), ..self }
        } else {
            self
        }
    }

    /// How putting in a new root ends: it fails where the cursor stands on a
    /// subtask.
    pub open spec fn insert_result(self) -> Result<(), ListError> {
        if self.items.len() > 0 && !self.items[self.cursor].is_root() {
            Err(ListError::CannotInsert)
        } else {
            Ok(())
        }
    }

    /// This list after a new root, stamped with `now`, was put in before the
    /// item under the cursor; the list itself where that fails.
    pub open spec fn inserted(self, now: Timestamp) -> ListView {
        if self.insert_result() is Ok {
            ListView { items: with_leaf(self.items, self.cursor, None, now), ..self }
        } else {
            self
        }
    }

    /// How adding a subtask ends: it fails on an empty list.
    pub open spec fn append_result(self) -> Result<(), ListError> {
        if self.items.len() == 0 {
            Err(ListError::EmptyList)
        } else {
            Ok(())
        }
    }

    /// This list after a new subtask, stamped with `now`, was added as the
    /// last one of the item under the cursor, and the cursor moved to it;
    /// the list itself where that fails.
    pub open spec fn appended(self, now: Timestamp) -> ListView {
        if self.append_result() is Ok {
            let at = subtree_end(self.items, self.cursor);
            ListView {
                items: activated(with_leaf(self.items, at, Some(self.cursor), now), self.cursor),
                cursor: at,
                ..self
            }
        } else {
            self
        }
    }

    /// How deleting the item under the cursor ends: it fails on an empty list.
    pub open spec fn delete_result(self) -> Result<(), ListError> {
        if self.items.len() == 0 {
            Err(ListError::EmptyList)
        } else {
            Ok(())
        }
    }

    /// This list after the item under the cursor was deleted with everything
    /// below it; the list itself where that fails.
    pub open spec fn deleted(self) -> ListView {
        if self.delete_result() is Ok {
            let left = self.items.len() - subtree_size(self.items, self.cursor);
            ListView {
                items: removed(self.items, self.cursor),
                cursor: clamped_cursor(self.cursor, left),
                ..self
            }
        } else {
            self
        }
    }

    /// How dragging the item under the cursor up ends: it fails on an empty
    /// list and where no sibling stands before the item.
    pub open spec fn drag_up_result(self) -> Result<(), ListError> {
        if self.items.len() == 0 {
            Err(ListError::EmptyList)
        } else if prev_sibling(self.items, self.cursor) >= 0 {
            Ok(())
        } else if self.items[self.cursor].is_root() {
            Err(ListError::AlreadyAtTop)
        } else {
            Err(ListError::CannotLeaveParent)
        }
    }

    /// This list after the subtree under the cursor changed places with the
    /// sibling subtree before it, the cursor following; the list itself where
    /// that fails.
    pub open spec fn dragged_up(self) -> ListView {
        if self.drag_up_result() is Ok {
            let prev = prev_sibling(self.items, self.cursor);
            ListView {
                items: swapped(self.items, prev, self.cursor, subtree_end(self.items, self.cursor)),
                cursor: prev,
                ..self
            }
        } else {
            self
        }
    }

    /// How dragging the item under the cursor down ends: it fails on an empty
    /// list and where no sibling stands behind the item.
    pub open spec fn drag_down_result(self) -> Result<(), ListError> {
        if self.items.len() == 0 {
            Err(ListError::EmptyList)
        } else if next_sibling(self.items, self.cursor) >= 0 {
            Ok(())
        } else if self.items[self.cursor].is_root() {
            Err(ListError::AlreadyAtBottom)
        } else {
            Err(ListError::CannotLeaveParent)
        }
    }

    /// This list after the subtree under the cursor changed places with the
    /// sibling subtree behind it, the cursor following; the list itself where
    /// that fails.
    pub open spec fn dragged_down(self) -> ListView {
        if self.drag_down_result() is Ok {
            let next = next_sibling(self.items, self.cursor);
            let end = subtree_end(self.items, next);
            ListView {
                items: swapped(self.items, self.cursor, next, end),
                cursor: self.cursor + (end - next),
                ..self
            }
        } else {
            self
        }
    }

    /// How moving the item under the cursor to another list ends: it fails on
    /// an empty list, on a subtask, and on an item that is still active.
    pub open spec fn transfer_result(self) -> Result<(), ListError> {
        if self.items.len() == 0 {
            Err(ListError::EmptyList)
        } else if !self.items[self.cursor].is_root() {
            Err(ListError::NotARoot)
        } else if self.items[self.cursor].is_active() {
            Err(ListError::StillActive)
        } else {
            Ok(())
        }
    }

    /// This list after the item under its cursor left for another list.
    pub open spec fn transferred(self) -> ListView {
        if self.transfer_result() is Ok {
            self.deleted()
        } else {
            self
        }
    }

    /// This list after it received, behind its own items, the item under the
    /// cursor of `from` with everything below it, stamped with `now`.
    pub open spec fn received(self, from: ListView, now: Timestamp) -> ListView {
        if from.transfer_result() is Ok {
            ListView { items: grafted(self.items, from.items, from.cursor, now), ..self }
        } else {
            self
        }
    }

    /// How marking the item at `at` ends: it fails where no item stands at
    /// `at`, and on an item that has active subtasks.
    pub open spec fn mark_result_at(self, at: int) -> Result<(), ListError> {
        if !(0 <= at < self.items.len()) {
            Err(ListError::EmptyList)
        } else if self.items[at].act_cnt > 1 {
            Err(ListError::HasActiveSubtasks)
        } else {
            Ok(())
        }
    }

    /// This list after the item at `at` was marked at the time `now`; the
    /// list itself where marking fails.
    pub open spec fn marked_at(self, at: int, now: Timestamp) -> ListView {
        if self.mark_result_at(at) is Ok {
            ListView { items: marked(self.items, at, now), ..self }
        } else {
            self
        }
    }

    /// This list with `text` as the text of the item under the cursor; the
    /// list itself where it is empty.
    pub open spec fn with_text(self, text: Seq<char>) -> ListView {
        if self.items.len() == 0 {
            self
        } else {
            ListView {
                items: self.items.update(
                    self.cursor,
                    ItemView { text, ..self.items[self.cursor] },
                ),
                ..self
            }
        }
    }

    /// The text of the item under the cursor; empty in an empty list.
    pub open spec fn cur_text(self) -> Seq<char> {
        if self.items.len() == 0 {
            Seq::<char>::empty()
        } else {
            self.items[self.cursor].text
        }
    }

    /// This list with the cursor at `cursor`.
    pub open spec fn at(self, cursor: int) -> ListView {
        ListView { cursor, ..self }
    }

    /// This list after a snapshot was taken.
    pub open spec fn recorded(self) -> ListView {
        ListView {
            history: self.history.push(Snapshot { items: self.items, cursor: self.cursor }),
            ..self
        }
    }

    /// This list after the newest snapshot was given back.
    pub open spec fn reverted(self) -> ListView {
        ListView {
            items: self.history.last().items,
            cursor: self.history.last().cursor,
            history: self.history.drop_last(),
        }
    }

    /// Whether the cursor stands on a subtask. An empty list counts.
    pub open spec fn is_at_sub(self) -> bool {
        self.items.len() == 0 || !self.items[self.cursor].is_root()
    }

    /// Whether the cursor stands on a root. An empty list counts.
    pub open spec fn is_at_root(self) -> bool {
        self.items.len() == 0 || self.items[self.cursor].is_root()
    }
}

impl View for List {
    type V = ListView;

    open(crate) spec fn view(&self) -> ListView {
        ListView {
            items: views(self.list@),
            cursor: self.cur as int,
            history: snapshots(self.state_stack@),
        }
    }
}

/// What `root_before` finds is a root, and no root stands between it and
/// `upto`.
pub proof fn lemma_root_before(items: Seq<ItemView>, upto: int)
    requires
        0 <= upto <= items.len(),
    ensures
        -1 <= root_before(items, upto) < upto,
        root_before(items, upto) >= 0 ==> items[root_before(items, upto)].is_root(),
        forall|x: int| root_before(items, upto) < x < upto ==> !(#[trigger] items[x]).is_root(),
    decreases upto,
{
    if upto > 0 && !items[upto - 1].is_root() {
        lemma_root_before(items, upto - 1);
    }
}

/// What `root_from` finds is a root, and no root stands between `from` and it.
pub proof fn lemma_root_from(items: Seq<ItemView>, from: int)
    requires
        0 <= from <= items.len(),
    ensures
        from <= root_from(items, from) <= items.len(),
        root_from(items, from) < items.len() ==> items[root_from(items, from)].is_root(),
        forall|x: int| from <= x < root_from(items, from) ==> !(#[trigger] items[x]).is_root(),
    decreases items.len() - from,
{
    if from < items.len() && !items[from].is_root() {
        lemma_root_from(items, from + 1);
    }
}

/// The number of roots before a position grows with the position, by one at
/// most for each step.
pub proof fn lemma_roots_before_grows(items: Seq<ItemView>, a: int, b: int)
    requires
        0 <= a <= b <= items.len(),
    ensures
        roots_before(items, a) <= roots_before(items, b) <= roots_before(items, a) + (b - a),
    decreases b - a,
{
    if a < b {
        lemma_roots_before_grows(items, a, b - 1);
    }
}

impl List {
    /// The invariant of a list: its items and every snapshot are well formed,
    /// each with its cursor in place.
    pub open spec fn wf(&self) -> bool {
        self@.wf()
    }

    /// An empty list without history.
    pub fn new() -> (out: Self)
        ensures
            out.wf(),
            out@.items.len() == 0,
            out@.cursor == 0,
            out@.history.len() == 0,
    {
        let out = List { state_stack: Vec::new(), cur: 0, list: Vec::new() };
        assert(out@.items =~= Seq::<ItemView>::empty());
        assert(out@.history =~= Seq::<Snapshot>::empty());
        out
    }

    /// The number of items.
    pub fn len(&self) -> (n: usize)
        ensures
            n == self@.items.len(),
    {
        self.list.len()
    }

    /// The position of the cursor.
    pub fn cursor(&self) -> (c: usize)
        ensures
            c == self@.cursor,
    {
        self.cur
    }

    /// The number of snapshots that undo can go back to.
    pub fn history_len(&self) -> (n: usize)
        ensures
            n == self@.history.len(),
    {
        self.state_stack.len()
    }

    /// The item at position `i`.
    pub fn get(&self, i: usize) -> (item: Option<&Item>)
        ensures
            match item {
                Some(it) => i < self@.items.len() && it@ == self@.items[i as int],
                None => i >= self@.items.len(),
            },
    {
        if i < self.list.len() {
            Some(&self.list[i])
        } else {
            None
        }
    }

    /// The item under the cursor, if the list has one.
    pub fn get_cur_item(&self) -> (item: Option<&Item>)
        ensures
            match item {
                Some(it) => self@.cursor < self@.items.len() && it@ == self@.items[self@.cursor],
                None => self@.cursor >= self@.items.len(),
            },
    {
        self.get(self.cur)
    }

    /// Whether the cursor stands on a subtask. An empty list counts.
    pub fn is_at_sub(&self) -> (b: bool)
        requires
            self.wf(),
        ensures
            b == self@.is_at_sub(),
    {
        self.list.len() == 0 || !self.list[self.cur].is_root()
    }

    /// Whether the cursor stands on a root. An empty list counts.
    pub fn is_at_root(&self) -> (b: bool)
        requires
            self.wf(),
        ensures
            b == self@.is_at_root(),
    {
        self.list.len() == 0 || self.list[self.cur].is_root()
    }

    /// The position of the last root before `upto`, if there is one.
    fn find_root_before(&self, upto: usize) -> (r: Option<usize>)
        requires
            upto <= self@.items.len(),
        ensures
            match r {
                Some(p) => p == root_before(self@.items, upto as int),
                None => root_before(self@.items, upto as int) == -1,
            },
    {
        let mut i: usize = upto;
        while i > 0
            invariant
                i <= upto <= self@.items.len(),
                root_before(self@.items, upto as int) == root_before(self@.items, i as int),
            decreases i,
        {
            if self.list[i - 1].is_root() {
                return Some(i - 1);
            }
            i -= 1;
        }
        None
    }

    /// The position of the first root at or after `from`, if there is one.
    fn find_root_from(&self, from: usize) -> (r: Option<usize>)
        requires
            from <= self@.items.len(),
        ensures
            match r {
                Some(p) => p == root_from(self@.items, from as int) && p < self@.items.len(),
                None => root_from(self@.items, from as int) == self@.items.len(),
            },
    {
        let mut i: usize = from;
        while i < self.list.len()
            invariant
                from <= i <= self@.items.len(),
                root_from(self@.items, from as int) == root_from(self@.items, i as int),
            decreases self.list.len() - i,
        {
            if self.list[i].is_root() {
                return Some(i);
            }
            i += 1;
        }
        None
    }

    /// The number of roots.
    pub fn count_roots(&self) -> (n: usize)
        ensures
            n == root_count(self@.items),
    {
        let mut n: usize = 0;
        let mut i: usize = 0;
        while i < self.list.len()
            invariant
                i <= self@.items.len(),
                n == roots_before(self@.items, i as int),
                n <= i,
            decreases self.list.len() - i,
        {
            if self.list[i].is_root() {
                n += 1;
            }
            i += 1;
        }
        n
    }

    /// The number of items that `full` shows: all of them, or the roots only.
    pub fn count(&self, full: bool) -> (n: usize)
        ensures
            n == shown_count(self@.items, full),
    {
        if full {
            self.list.len()
        } else {
            self.count_roots()
        }
    }

    /// The nesting depth of item `i`.
    pub fn level(&self, i: usize) -> (d: usize)
        requires
            self.wf(),
            i < self@.items.len(),
        ensures
            d == depth(self@.items, i as int),
    {
        item_depth(&self.list, i)
    }

    /// The rows to show, each with the position of its item and the item's
    /// depth. With `skip_children` only roots are shown.
    pub fn rows(&self, skip_children: bool) -> (out: Vec<(usize, usize)>)
        requires
            self.wf(),
        ensures
            out@ == rows(self@.items, skip_children),
    {
        let mut out: Vec<(usize, usize)> = Vec::new();
        let mut i: usize = 0;
        while i < self.list.len()
            invariant
                self.wf(),
                i <= self@.items.len(),
                out@ == rows_before(self@.items, skip_children, i as int),
            decreases self.list.len() - i,
        {
            if !(skip_children && !self.list[i].is_root()) {
                let level: usize = self.level(i);
                out.push((i, level));
            }
            i += 1;
        }
        out
    }

    /// Takes a snapshot of the items and the cursor.
    pub fn record_state(&mut self)
        requires
            old(self).wf(),
        ensures
            final(self).wf(),
            final(self)@ == old(self)@.recorded(),
    {
        let copy = clone_items(&self.list);
        self.state_stack.push((copy, self.cur));
        assert(self@.history =~= old(self)@.recorded().history);
    }

    /// Goes back to the newest snapshot and forgets it.
    pub fn revert_state(&mut self) -> (r: Result<(), ListError>)
        requires
            old(self).wf(),
        ensures
            final(self).wf(),
            old(self)@.history.len() == 0 ==> r == Err::<(), ListError>(ListError::NothingToUndo)
                && final(self)@ == old(self)@,
            old(self)@.history.len() > 0 ==> r is Ok && final(self)@ == old(self)@.reverted(),
    {
        match self.state_stack.pop() {
            Some((list, cur)) => {
                assert(old(self)@.history.last().items == views(list@));
                self.list = list;
                self.cur = cur;
                assert(self@.history =~= old(self)@.reverted().history);
                Ok(())
            },
            None => Err(ListError::NothingToUndo),
        }
    }

    /// Forgets the newest snapshot, if there is one.
    pub fn drop_state(&mut self)
        requires
            old(self).wf(),
        ensures
            final(self).wf(),
            final(self)@.items == old(self)@.items,
            final(self)@.cursor == old(self)@.cursor,
            old(self)@.history.len() == 0 ==> final(self)@ == old(self)@,
            old(self)@.history.len() > 0 ==> final(self)@.history == old(self)@.history.drop_last(),
    {
        let top = self.state_stack.pop();
        assert(old(self)@.history.len() > 0 ==> self@.history =~= old(self)@.history.drop_last());
        assert(old(self)@.history.len() == 0 ==> self@.history =~= old(self)@.history);
    }

    /// Marks the item under the cursor at the time `now`: completes it if it
    /// is active, reopens it if it is complete.
    pub fn mark(&mut self, now: Timestamp) -> (r: Result<(), ListError>)
        requires
            old(self).wf(),
        ensures
            final(self).wf(),
            r == old(self)@.mark_result(),
            final(self)@ == old(self)@.marked(now),
    {
        if self.list.len() == 0 {
            return Err(ListError::EmptyList);
        }
        let c: usize = self.cur;
        self.mark_at(c, now)
    }

    /// Marks the item at `c` at the time `now`: completes it if it is active,
    /// reopens it if it is complete.
    pub fn mark_at(&mut self, c: usize, now: Timestamp) -> (r: Result<(), ListError>)
        requires
            old(self).wf(),
        ensures
            final(self).wf(),
            r == old(self)@.mark_result_at(c as int),
            final(self)@ == old(self)@.marked_at(c as int, now),
    {
        if c >= self.list.len() {
            return Err(ListError::EmptyList);
        }
        if self.list[c].act_cnt > 1 {
            return Err(ListError::HasActiveSubtasks);
        }
        self.toggle_at(c, now);
        Ok(())
    }

    /// Marks the item at `c`, which has no active subtasks, at the time `now`.
    fn toggle_at(&mut self, c: usize, now: Timestamp)
        requires
            old(self).wf(),
            c < old(self)@.items.len(),
            old(self)@.items[c as int].act_cnt <= 1,
        ensures
            final(self).wf(),
            final(self)@ == (ListView { items: marked(old(self)@.items, c as int, now), ..old(self)@ }),
    {
        let ghost before = self@.items;
        proof {
            lemma_marked(before, c as int, now);
            assert(-1 <= par(before, c as int) < c);
        }
        let parent = self.list[c].parent;
        if self.list[c].act_cnt == 1 {
            self.list[c].act_cnt = 0;
            self.list[c].date = now;
            match parent {
                Some(p) => {
                    proof {
                        lemma_parent_of_active(before, c as int);
                    }
                    self.list[p].act_cnt -= 1;
                },
                None => {},
            }
        } else {
            self.list[c].act_cnt = 1;
            match parent {
                Some(p) => {
                    assert(views(self.list@) =~= with_count(before, c as int, 1));
                    proof {
                        lemma_reopened(before, c as int);
                    }
                    unmark_parents(&mut self.list, p);
                },
                None => {},
            }
        }
        assert(self@.items =~= marked(before, c as int, now));
    }

    /// The position right after the subtree of item `c`.
    pub fn subtree_end(&self, c: usize) -> (e: usize)
        requires
            c < self@.items.len(),
        ensures
            e == subtree_end(self@.items, c as int),
            is_block(self@.items, c as int, e as int),
    {
        let n: usize = self.list.len();
        let mut e: usize = c + 1;
        proof {
            lemma_subtree_end(self@.items, c as int);
        }
        while e < n && hangs_below(&self.list[e], c)
            invariant
                c < e <= n == self@.items.len(),
                forall|x: int| c < x < e ==> #[trigger] par(self@.items, x) >= c,
            decreases n - e,
        {
            e += 1;
        }
        assert(is_block(self@.items, c as int, e as int));
        e
    }

    /// The number of items below item `parent`.
    pub fn children_cnt(&self, parent: usize) -> (cnt: usize)
        requires
            parent < self@.items.len(),
        ensures
            cnt == subtree_size(self@.items, parent as int) - 1,
    {
        self.subtree_end(parent) - parent - 1
    }

    /// Puts a new, empty root, stamped with `now`, before the item under the
    /// cursor.
    pub fn insert(&mut self, now: Timestamp) -> (r: Result<(), ListError>)
        requires
            old(self).wf(),
        ensures
            final(self).wf(),
            r == old(self)@.insert_result(),
            final(self)@ == old(self)@.inserted(now),
    {
        if self.list.len() > 0 && !self.list[self.cur].is_root() {
            return Err(ListError::CannotInsert);
        }
        let ghost before = self@.items;
        let n: usize = self.list.len();
        let c: usize = self.cur;
        proof {
            assert(leaf_fits(before, c as int, None));
            lemma_with_leaf(before, c as int, None, now);
            reveal(with_leaf);
        }
        self.list.push(Item::new(String::new(), now, None, 1));
        assert(views(self.list@) =~= before.push(crate::edits::fresh(None, now)));
        let grown: usize = self.list.len();
        rotate(&mut self.list, c, n, grown);
        Ok(())
    }

    /// Adds a new, empty subtask, stamped with `now`, as the last one of the
    /// item under the cursor, and moves the cursor to it.
    pub fn append(&mut self, now: Timestamp) -> (r: Result<(), ListError>)
        requires
            old(self).wf(),
        ensures
            final(self).wf(),
            r == old(self)@.append_result(),
            final(self)@ == old(self)@.appended(now),
    {
        if self.list.len() == 0 {
            return Err(ListError::EmptyList);
        }
        let ghost before = self@.items;
        let n: usize = self.list.len();
        let c: usize = self.cur;
        let at: usize = self.subtree_end(c);
        proof {
            assert(leaf_fits(before, at as int, Some(c as int)));
            lemma_with_leaf(before, at as int, Some(c as int), now);
            crate::activity::lemma_activated(with_leaf(before, at as int, Some(c as int), now), c as int);
            reveal(with_leaf);
        }
        self.list[c].children.push(n);
        self.list.push(Item::new(String::new(), now, Some(c), 1));
        assert(views(self.list@) =~= before.update(
            c as int,
            ItemView { children: before[c as int].children.push(n as int), ..before[c as int] },
        ).push(crate::edits::fresh(Some(c as int), now))) by {
            assert(self.list@[c as int]@.children =~= before[c as int].children.push(n as int));
        }
        let grown: usize = self.list.len();
        rotate(&mut self.list, at, n, grown);
        unmark_parents(&mut self.list, c);
        self.cur = at;
        Ok(())
    }

    /// Deletes the item under the cursor with everything below it.
    pub fn delete(&mut self) -> (r: Result<(), ListError>)
        requires
            old(self).wf(),
        ensures
            final(self).wf(),
            r == old(self)@.delete_result(),
            final(self)@ == old(self)@.deleted(),
    {
        if self.list.len() == 0 {
            return Err(ListError::EmptyList);
        }
        let c: usize = self.cur;
        let left: usize = remove_block(&mut self.list, c);
        if left == 0 {
            self.cur = 0;
        } else if self.cur >= left {
            self.cur = left - 1;
        }
        Ok(())
    }

    /// The position of the sibling right before item `c`, if there is one.
    fn find_prev_sibling(&self, c: usize) -> (r: Option<usize>)
        requires
            self.wf(),
            c < self@.items.len(),
        ensures
            match r {
                Some(j) => j == prev_sibling(self@.items, c as int) && is_block(
                    self@.items,
                    j as int,
                    c as int,
                ) && par(self@.items, j as int) == par(self@.items, c as int),
                None => prev_sibling(self@.items, c as int) == -1,
            },
    {
        let parent = self.list[c].parent;
        let mut i: usize = c;
        while i > 0
            invariant
                i <= c < self@.items.len(),
                self.wf(),
                opt_int(parent) == self@.items[c as int].parent,
                prev_sibling(self@.items, c as int) == sibling_before(self@.items, c as int, i as int),
                forall|x: int| i <= x < c ==> (#[trigger] self@.items[x]).parent != self@.items[c as int].parent,
            decreases i,
        {
            let same = match (self.list[i - 1].parent, parent) {
                (Some(p), Some(q)) => p == q,
                (None, None) => true,
                _ => false,
            };
            if same {
                let j: usize = i - 1;
                proof {
                    let items = self@.items;
                    assert(-1 <= par(items, j as int) < j);
                    assert forall|x: int| j < x < c implies #[trigger] par(items, x) >= j by {
                        assert(items[x].parent != items[c as int].parent);
                        assert(-1 <= par(items, x) < x);
                        assert(-1 <= par(items, c as int) < c);
                        assert(par(items, c as int) < x ==> par(items, c as int) <= par(items, x));
                        assert(par(items, x) < j ==> par(items, x) <= par(items, j as int));
                    }
                }
                return Some(j);
            }
            i -= 1;
        }
        None
    }

    /// Lets the subtree under the cursor change places with the sibling
    /// subtree before it. The cursor follows the item.
    pub fn drag_up(&mut self) -> (r: Result<(), ListError>)
        requires
            old(self).wf(),
        ensures
            final(self).wf(),
            r == old(self)@.drag_up_result(),
            final(self)@ == old(self)@.dragged_up(),
    {
        if self.list.len() == 0 {
            return Err(ListError::EmptyList);
        }
        let c: usize = self.cur;
        match self.find_prev_sibling(c) {
            Some(pier) => {
                let end: usize = self.subtree_end(c);
                swap_blocks(&mut self.list, pier, c, end);
                self.cur = pier;
                Ok(())
            },
            None => {
                if self.list[c].is_root() {
                    Err(ListError::AlreadyAtTop)
                } else {
                    Err(ListError::CannotLeaveParent)
                }
            },
        }
    }

    /// Lets the subtree under the cursor change places with the sibling
    /// subtree behind it. The cursor follows the item.
    pub fn drag_down(&mut self) -> (r: Result<(), ListError>)
        requires
            old(self).wf(),
        ensures
            final(self).wf(),
            r == old(self)@.drag_down_result(),
            final(self)@ == old(self)@.dragged_down(),
    {
        if self.list.len() == 0 {
            return Err(ListError::EmptyList);
        }
        let c: usize = self.cur;
        let pier: usize = self.subtree_end(c);
        let same = pier < self.list.len() && match (self.list[pier].parent, self.list[c].parent) {
            (Some(p), Some(q)) => p == q,
            (None, None) => true,
            _ => false,
        };
        if same {
            let end: usize = self.subtree_end(pier);
            proof {
                assert(-1 <= par(self@.items, c as int) < c);
                assert(-1 <= par(self@.items, pier as int) < pier);
            }
            swap_blocks(&mut self.list, c, pier, end);
            self.cur = c + (end - pier);
            Ok(())
        } else if self.list[c].is_root() {
            Err(ListError::AlreadyAtBottom)
        } else {
            Err(ListError::CannotLeaveParent)
        }
    }

    /// Moves the item under the cursor, with everything below it, to the end
    /// of `rhs`, and stamps it with `now`.
    pub fn transfer(&mut self, rhs: &mut List, now: Timestamp) -> (r: Result<(), ListError>)
        requires
            old(self).wf(),
            old(rhs).wf(),
        ensures
            final(self).wf(),
            final(rhs).wf(),
            r == old(self)@.transfer_result(),
            final(self)@ == old(self)@.transferred(),
            final(rhs)@ == old(rhs)@.received(old(self)@, now),
    {
        if self.list.len() == 0 {
            return Err(ListError::EmptyList);
        }
        let c: usize = self.cur;
        if !self.list[c].is_root() {
            return Err(ListError::NotARoot);
        } else if self.list[c].is_active() {
            return Err(ListError::StillActive);
        }
        let ghost src = self@.items;
        let ghost dest = rhs@.items;
        let end: usize = self.subtree_end(c);
        let m: usize = rhs.list.len();
        proof {
            lemma_grafted(dest, src, c as int, now);
            reveal(grafted);
        }
        // Copy the block to the end of the other list.
        let mut i: usize = c;
        while i < end
            invariant
                c <= i <= end <= self.list.len(),
                self@.items == src,
                m == dest.len(),
                dest == views(old(rhs).list@),
                rhs.list.len() == m + (i - c),
                rhs.cur == old(rhs).cur,
                rhs.state_stack == old(rhs).state_stack,
                forall|t: int| 0 <= t < m ==> rhs.list@[t] == old(rhs).list@[t],
                forall|x: int|
                    0 <= x < i - c ==> (#[trigger] rhs.list@[m + x])@ == if x == 0 {
                        ItemView { date: now, ..src[c as int] }
                    } else {
                        src[c + x]
                    },
            decreases end - i,
        {
            let mut item = self.list[i].clone();
            if i == c {
                item.date = now;
            }
            rhs.list.push(item);
            i += 1;
        }
        // Let the links of the copies point into their new list.
        let total: usize = rhs.list.len();
        assert forall|t: int| m <= t < total implies (#[trigger] rhs.list@[t])@ == if t == m {
            ItemView { date: now, ..src[c as int] }
        } else {
            src[c + (t - m)]
        } by {
            let x = t - m;
            assert(rhs.list@[m + x]@ == if x == 0 {
                ItemView { date: now, ..src[c as int] }
            } else {
                src[c + x]
            });
        }
        let mut j: usize = m;
        while j < total
            invariant
                c < end <= src.len(),
                m <= j <= total == rhs.list.len(),
                total == m + (end - c),
                m == dest.len(),
                dest == views(old(rhs).list@),
                nested(src),
                children_listed(src),
                is_block(src, c as int, end as int),
                par(src, c as int) == -1,
                rhs.cur == old(rhs).cur,
                rhs.state_stack == old(rhs).state_stack,
                forall|t: int| 0 <= t < m ==> rhs.list@[t] == old(rhs).list@[t],
                forall|t: int|
                    m <= t < j ==> (#[trigger] rhs.list@[t])@ == rebased(
                        if t == m {
                            ItemView { date: now, ..src[c as int] }
                        } else {
                            src[c + (t - m)]
                        },
                        m - c,
                    ),
                forall|t: int|
                    j <= t < total ==> (#[trigger] rhs.list@[t])@ == if t == m {
                        ItemView { date: now, ..src[c as int] }
                    } else {
                        src[c + (t - m)]
                    },
            decreases total - j,
        {
            proof {
                let i = c + (j - m);
                lemma_block_closed(src, c as int, end as int);
                assert(-1 <= par(src, i) < i);
                assert(i > c ==> par(src, i) >= c);
                assert(rhs.list@[j as int]@.parent == src[i].parent);
                assert(rhs.list@[j as int]@.children == src[i].children);
                assert forall|k: int| 0 <= k < src[i].children.len() implies c <= (
                #[trigger] src[i].children[k]) < end by {
                    let d = src[i].children[k];
                    assert(i < d < src.len() && par(src, d) == i);
                    assert(d >= end ==> par(src, d) < c || par(src, d) >= end);
                }
            }
            rebase(&mut rhs.list[j], c, m, end - c);
            j += 1;
        }
        assert(views(rhs.list@) =~= grafted(dest, src, c as int, now));
        let left: usize = remove_block(&mut self.list, c);
        if left == 0 {
            self.cur = 0;
        } else if self.cur >= left {
            self.cur = left - 1;
        }
        Ok(())
    }

    /// Applies the key with the curses code `key` to the text of the item
    /// under the cursor, with the text cursor at `cur`. An empty list stays
    /// as it is.
    pub fn edit(&mut self, cur: &mut usize, key: i32)
        requires
            old(self).wf(),
        ensures
            final(self).wf(),
            final(self)@ == old(self)@.with_text(
                edited_text(old(self)@.cur_text(), *old(cur), key_meaning(key)),
            ),
            old(self)@.items.len() > 0 ==> *final(cur) == edited_cursor(
                old(self)@.cur_text(),
                *old(cur),
                key_meaning(key),
            ),
            old(self)@.items.len() == 0 ==> *final(cur) == *old(cur),
    {
        self.edit_with(cur, decode_key(key))
    }

    /// Applies one keystroke to the text of the item under the cursor, with
    /// the text cursor at `cur`. An empty list stays as it is.
    pub fn edit_with(&mut self, cur: &mut usize, key: EditKey)
        requires
            old(self).wf(),
        ensures
            final(self).wf(),
            final(self)@ == old(self)@.with_text(
                edited_text(old(self)@.cur_text(), *old(cur), key),
            ),
            old(self)@.items.len() > 0 ==> *final(cur) == edited_cursor(
                old(self)@.cur_text(),
                *old(cur),
                key,
            ),
            old(self)@.items.len() == 0 ==> *final(cur) == *old(cur),
    {
        if self.list.len() > 0 {
            let c: usize = self.cur;
            edit_text(&mut self.list[c].text, cur, key);
            proof {
                let want = old(self)@.with_text(edited_text(old(self)@.cur_text(), *old(cur), key));
                assert(self@.items =~= want.items);
                lemma_same_links(old(self)@.items, self@.items);
            }
        }
    }

    /// The number of characters in the text of the item under the cursor; 0
    /// in an empty list.
    pub fn cur_text_len(&self) -> (n: usize)
        requires
            self.wf(),
        ensures
            n == self@.cur_text().len(),
    {
        if self.list.len() > 0 {
            self.list[self.cur].text.as_str().unicode_len()
        } else {
            0
        }
    }

    /// Removes the white space around the text of the item under the cursor.
    pub fn trim_cur_text(&mut self)
        requires
            old(self).wf(),
        ensures
            final(self).wf(),
            final(self)@ == old(self)@.with_text(trimmed(old(self)@.cur_text())),
    {
        if self.list.len() > 0 {
            let c: usize = self.cur;
            self.list[c].trim_text();
            proof {
                let want = old(self)@.with_text(trimmed(old(self)@.cur_text()));
                assert(self@.items =~= want.items);
                lemma_same_links(old(self)@.items, self@.items);
            }
        }
    }

    /// Moves the cursor one step up.
    pub fn up(&mut self, full: bool)
        requires
            old(self).wf(),
        ensures
            final(self).wf(),
            final(self)@ == old(self)@.at(old(self)@.up(full)),
    {
        if self.cur > 0 && self.list.len() > 0 {
            if full {
                self.cur -= 1;
            } else {
                proof {
                    lemma_root_before(self@.items, self.cur as int);
                }
                match self.find_root_before(self.cur) {
                    Some(next) => {
                        self.cur = next;
                    },
                    None => {},
                }
            }
        }
    }

    /// Moves the cursor one step down.
    pub fn down(&mut self, full: bool)
        requires
            old(self).wf(),
        ensures
            final(self).wf(),
            final(self)@ == old(self)@.at(old(self)@.down(full)),
    {
        if self.list.len() > 0 {
            if full {
                if self.cur + 1 < self.list.len() {
                    self.cur += 1;
                } else {
                    self.cur = self.list.len() - 1;
                }
            } else {
                proof {
                    lemma_root_from(self@.items, self.cur + 1);
                }
                match self.find_root_from(self.cur + 1) {
                    Some(next) => {
                        self.cur = next;
                    },
                    None => {},
                }
            }
        }
    }

    /// Moves the cursor to the first item.
    pub fn first(&mut self)
        requires
            old(self).wf(),
        ensures
            final(self).wf(),
            final(self)@ == old(self)@.at(0),
    {
        self.cur = 0;
    }

    /// Moves the cursor to the middle of the list.
    pub fn half(&mut self, full: bool)
        requires
            old(self).wf(),
        ensures
            final(self).wf(),
            final(self)@ == old(self)@.at(final(self)@.cursor),
            old(self)@.is_half(full, final(self)@.cursor),
    {
        if self.list.len() > 0 {
            if full {
                self.cur = self.list.len() / 2;
            } else {
                let num_roots: usize = self.count_roots();
                let rank: usize = num_roots / 2;
                let mut seen: usize = 0;
                let mut i: usize = 0;
                proof {
                    assert(par(self@.items, 0) < 0);
                    lemma_roots_before_grows(self@.items, 0, 1);
                    lemma_roots_before_grows(self@.items, 1, self@.items.len() as int);
                    assert(num_roots >= 1);
                }
                while i < self.list.len()
                    invariant
                        i <= self@.items.len(),
                        seen == roots_before(self@.items, i as int),
                        seen <= rank < num_roots == root_count(self@.items),
                        rank == num_roots / 2,
                        !full,
                        self.wf(),
                        self@ == old(self)@,
                    decreases self.list.len() - i,
                {
                    if self.list[i].is_root() {
                        if seen == rank {
                            self.cur = i;
                            return ;
                        }
                        seen += 1;
                    }
                    i += 1;
                }
            }
        }
    }

    /// Moves the cursor to the bottom of the list.
    pub fn last(&mut self, full: bool)
        requires
            old(self).wf(),
        ensures
            final(self).wf(),
            final(self)@ == old(self)@.at(old(self)@.last(full)),
    {
        if self.list.len() > 0 {
            if full {
                self.cur = self.list.len() - 1;
            } else {
                proof {
                    lemma_root_before(self@.items, self@.items.len() as int);
                }
                match self.find_root_before(self.list.len()) {
                    Some(last) => {
                        self.cur = last;
                    },
                    None => {
                        self.cur = 0;
                    },
                }
            }
        }
    }
}

/// Reopening a complete item that has a parent leaves the parent one short.
proof fn lemma_reopened(items: Seq<ItemView>, c: int)
    requires
        well_formed(items),
        0 <= c < items.len(),
        items[c].act_cnt == 0,
        par(items, c) >= 0,
    ensures
        nested(with_count(items, c, 1)),
        children_listed(with_count(items, c, 1)),
        one_short(with_count(items, c, 1), par(items, c)),
{
    let open = with_count(items, c, 1);
    let p = par(items, c);
    assert(-1 <= par(items, c) < c);
    crate::activity::lemma_same_shape(items, open);
    crate::activity::lemma_flag_flipped(items, open, c);
    assert(count_ok(items, p));
    assert(count_ok(items, c));
    assert forall|i: int| 0 <= i < open.len() && i != p implies #[trigger] count_ok(open, i) by {
        crate::activity::lemma_flags_kept(items, open, i);
        assert(count_ok(items, i));
    }
}

/// Lets item `parent` and, as far as it takes, the items above it count one
/// more active subtask.
pub(crate) fn unmark_parents(list: &mut Vec<Item>, parent: usize)
    requires
        nested(views(old(list)@)),
        children_listed(views(old(list)@)),
        one_short(views(old(list)@), parent as int),
    ensures
        views(final(list)@) == activated(views(old(list)@), parent as int),
{
    let mut p: usize = parent;
    loop
        invariant
            nested(views(list@)),
            children_listed(views(list@)),
            one_short(views(list@), p as int),
            activated(views(list@), p as int) == activated(views(old(list)@), parent as int),
        decreases p,
    {
        let ghost now = views(list@);
        proof {
            lemma_children_bound(now, p as int);
            assert(-1 <= par(now, p as int) < p);
        }
        if list[p].act_cnt >= 1 {
            assert(now[p as int].act_cnt == list@[p as int].act_cnt);
            assert(now[p as int].act_cnt <= now.len() - p - 1);
            assert(now.len() == list.len());
            list[p].act_cnt += 1;
            assert(views(list@) =~= with_count(now, p as int, now[p as int].act_cnt + 1));
            return ;
        }
        list[p].act_cnt = 2;
        assert(views(list@) =~= with_count(now, p as int, 2));
        proof {
            lemma_activation_step(now, p as int);
        }
        match list[p].parent {
            Some(q) => {
                p = q;
            },
            None => {
                return ;
            },
        }
    }
}

/// The nesting depth of item `i`.
pub(crate) fn item_depth(list: &Vec<Item>, i: usize) -> (d: usize)
    requires
        nested(views(list@)),
        i < list.len(),
    ensures
        d == depth(views(list@), i as int),
        d <= i,
{
    let ghost items = views(list@);
    let mut d: usize = 0;
    let mut at: usize = i;
    loop
        invariant
            nested(items),
            items == views(list@),
            at <= i < items.len(),
            d + at <= i,
            depth(items, i as int) == d + depth(items, at as int),
        decreases at,
    {
        assert(-1 <= par(items, at as int) < at);
        match list[at].parent {
            Some(p) => {
                d += 1;
                at = p;
            },
            None => {
                return d;
            },
        }
    }
}

/// Moves every link of `item`, all of which lie in `[from, from + len)`, to
/// the same place in `[to, to + len)`.
fn rebase(item: &mut Item, from: usize, to: usize, len: usize)
    requires
        to + len <= usize::MAX,
        match old(item)@.parent {
            Some(p) => from <= p < from + len,
            None => true,
        },
        forall|k: int|
            0 <= k < old(item)@.children.len() ==> from <= (#[trigger] old(item)@.children[k]) < from
                + len,
    ensures
        final(item)@ == rebased(old(item)@, to - from),
{
    match item.parent {
        Some(p) => {
            item.parent = Some(p - from + to);
        },
        None => {},
    }
    let mut k: usize = 0;
    while k < item.children.len()
        invariant
            to + len <= usize::MAX,
            k <= item.children.len() == old(item).children.len(),
            item.text == old(item).text,
            item.date == old(item).date,
            item.act_cnt == old(item).act_cnt,
            item@.parent == rebased(old(item)@, to - from).parent,
            forall|x: int|
                0 <= x < old(item)@.children.len() ==> from <= (#[trigger] old(item)@.children[x])
                    < from + len,
            forall|x: int| 0 <= x < k ==> item.children@[x] as int == old(item).children@[x] - from + to,
            forall|x: int| k <= x < item.children.len() ==> item.children@[x] == old(item).children@[x],
        decreases item.children.len() - k,
    {
        assert(old(item)@.children[k as int] == old(item).children@[k as int] as int);
        let moved_to: usize = item.children[k] - from + to;
        item.children[k] = moved_to;
        k += 1;
    }
    assert(item@.children =~= rebased(old(item)@, to - from).children);
}

/// Whether the parent of `item` stands at `c` or behind it.
fn hangs_below(item: &Item, c: usize) -> (b: bool)
    ensures
        b == match item@.parent {
            Some(p) => p >= c,
            None => false,
        },
{
    match item.parent {
        Some(p) => p >= c,
        None => false,
    }
}

/// The place of position `c` among `kids`.
fn find_kid(kids: &Vec<usize>, c: usize) -> (k: usize)
    requires
        ints(kids@).contains(c as int),
    ensures
        k < kids.len(),
        kids@[k as int] == c,
{
    let mut k: usize = 0;
    while k < kids.len()
        invariant
            k <= kids.len(),
            ints(kids@).contains(c as int),
            forall|x: int| 0 <= x < k ==> kids@[x] != c,
        decreases kids.len() - k,
    {
        if kids[k] == c {
            return k;
        }
        k += 1;
    }
    proof {
        let x = choose|x: int| 0 <= x < ints(kids@).len() && ints(kids@)[x] == c as int;
        assert(kids@[x] == c);
    }
    k
}

/// Takes item `c` out of the list with everything below it, and says how
/// many items are left.
pub(crate) fn remove_block(list: &mut Vec<Item>, c: usize) -> (left: usize)
    requires
        well_formed(views(old(list)@)),
        c < old(list).len(),
    ensures
        views(final(list)@) == removed(views(old(list)@), c as int),
        well_formed(views(final(list)@)),
        left == final(list).len(),
        left == old(list).len() - subtree_size(views(old(list)@), c as int),
{
    let ghost before = views(list@);
    let n: usize = list.len();
    proof {
        lemma_removed(before, c as int);
        lemma_subtree_end(before, c as int);
        reveal(removed);
        assert(-1 <= par(before, c as int) < c);
    }
    // Find where the subtree ends.
    let mut end: usize = c + 1;
    while end < n && hangs_below(&list[end], c)
        invariant
            c < end <= n == list.len(),
            views(list@) == before,
            forall|x: int| c < x < end ==> #[trigger] par(before, x) >= c,
        decreases n - end,
    {
        end += 1;
    }
    assert(is_block(before, c as int, end as int));
    let active: bool = list[c].act_cnt > 0;
    match list[c].parent {
        Some(p) => {
            proof {
                assert(before[p as int].children.contains(c as int));
                if active {
                    lemma_parent_of_active(before, c as int);
                }
            }
            let k: usize = find_kid(&list[p].children, c);
            proof {
                let kids = before[p as int].children;
                let chosen = kids.index_of(c as int);
                assert(kids[k as int] == c);
                if chosen < k {
                    assert(kids[chosen] < kids[k as int]);
                } else if k < chosen {
                    assert(kids[k as int] < kids[chosen]);
                }
            }
            list[p].children.remove(k);
            if active {
                list[p].act_cnt -= 1;
            }
            assert(list@[p as int]@.children =~= before[p as int].children.remove(k as int));
            assert(views(list@) =~= before.update(
                p as int,
                ItemView {
                    children: before[p as int].children.remove(k as int),
                    act_cnt: if before[c as int].act_cnt > 0 {
                        (before[p as int].act_cnt - 1) as nat
                    } else {
                        before[p as int].act_cnt
                    },
                    ..before[p as int]
                },
            ));
        },
        None => {},
    }
    let ghost unhooked = views(list@);
    rotate(list, c, end, n);
    let ghost turned = views(list@);
    list.truncate(n - (end - c));
    assert(views(list@) =~= turned.take(n - (end - c)));
    n - (end - c)
}

/// Lets the sibling subtrees `[a, b)` and `[b, e)` change places.
pub(crate) fn swap_blocks(list: &mut Vec<Item>, a: usize, b: usize, e: usize)
    requires
        well_formed(views(old(list)@)),
        is_block(views(old(list)@), a as int, b as int),
        is_block(views(old(list)@), b as int, e as int),
        par(views(old(list)@), a as int) == par(views(old(list)@), b as int),
    ensures
        views(final(list)@) == swapped(views(old(list)@), a as int, b as int, e as int),
        well_formed(views(final(list)@)),
        final(list).len() == old(list).len(),
{
    let ghost before = views(list@);
    proof {
        lemma_swapped(before, a as int, b as int, e as int);
        reveal(swapped);
        assert(-1 <= par(before, a as int) < a);
    }
    let parent = list[a].parent;
    rotate(list, a, b, e);
    let ghost turned = views(list@);
    match parent {
        Some(p) => {
            let first: usize = a;
            let second: usize = a + (e - b);
            let mut k: usize = 0;
            while k < list[p].children.len()
                invariant
                    p < a <= b <= e <= list.len() == turned.len(),
                    first == a,
                    second == a + (e - b),
                    k <= list@[p as int].children.len() == turned[p as int].children.len(),
                    forall|t: int| 0 <= t < list.len() && t != p ==> list@[t]@ == turned[t],
                    list@[p as int].text@ == turned[p as int].text,
                    list@[p as int].date == turned[p as int].date,
                    list@[p as int]@.parent == turned[p as int].parent,
                    list@[p as int].act_cnt == turned[p as int].act_cnt,
                    forall|x: int|
                        0 <= x < k ==> list@[p as int].children@[x] as int == if turned[p as int].children[x]
                            == first {
                            second as int
                        } else if turned[p as int].children[x] == second {
                            first as int
                        } else {
                            turned[p as int].children[x]
                        },
                    forall|x: int|
                        k <= x < list@[p as int].children.len() ==> list@[p as int].children@[x] as int
                            == turned[p as int].children[x],
                decreases list@[p as int].children.len() - k,
            {
                assert(turned[p as int].children[k as int] == list@[p as int].children@[k as int] as int);
                let v: usize = list[p].children[k];
                if v == first {
                    list[p].children[k] = second;
                } else if v == second {
                    list[p].children[k] = first;
                }
                k += 1;
            }
            proof {
                let want = swapped(before, a as int, b as int, e as int);
                assert(list@[p as int]@.children =~= reordered(
                    before[p as int].children,
                    a as int,
                    b as int,
                    e as int,
                )) by {
                    assert forall|x: int| 0 <= x < before[p as int].children.len() implies list@[p as int]@.children[x]
                        == reordered(before[p as int].children, a as int, b as int, e as int)[x] by {
                        let d = before[p as int].children[x];
                        assert(p < d < before.len() && par(before, d) == p);
                        assert(turned[p as int].children[x] == moved(d, a as int, b as int, e as int));
                        assert(a < d < b ==> par(before, d) >= a);
                        assert(b < d < e ==> par(before, d) >= b);
                    }
                }
                assert(views(list@) =~= want);
            }
        },
        None => {},
    }
}

/// Where position `r` goes when `[lo, mid)` and `[mid, hi)` change places.
fn move_index(r: usize, lo: usize, mid: usize, hi: usize) -> (out: usize)
    requires
        lo <= mid <= hi,
    ensures
        out == moved(r as int, lo as int, mid as int, hi as int),
{
    if lo <= r && r < mid {
        r + (hi - mid)
    } else if mid <= r && r < hi {
        r - (mid - lo)
    } else {
        r
    }
}

/// Lets the links of `item` follow the exchange of `[lo, mid)` and `[mid, hi)`.
fn relink(item: &mut Item, lo: usize, mid: usize, hi: usize)
    requires
        lo <= mid <= hi,
    ensures
        final(item)@ == relinked(old(item)@, lo as int, mid as int, hi as int),
{
    match item.parent {
        Some(p) => {
            item.parent = Some(move_index(p, lo, mid, hi));
        },
        None => {},
    }
    let mut k: usize = 0;
    while k < item.children.len()
        invariant
            lo <= mid <= hi,
            k <= item.children.len() == old(item).children.len(),
            item.text == old(item).text,
            item.date == old(item).date,
            item.act_cnt == old(item).act_cnt,
            item@.parent == relinked(old(item)@, lo as int, mid as int, hi as int).parent,
            forall|x: int|
                0 <= x < k ==> item.children@[x] as int == moved(
                    old(item).children@[x] as int,
                    lo as int,
                    mid as int,
                    hi as int,
                ),
            forall|x: int| k <= x < item.children.len() ==> item.children@[x] == old(item).children@[x],
        decreases item.children.len() - k,
    {
        let to: usize = move_index(item.children[k], lo, mid, hi);
        item.children[k] = to;
        k += 1;
    }
    assert(item@.children =~= relinked(old(item)@, lo as int, mid as int, hi as int).children);
}

/// Lets the adjacent ranges `[lo, mid)` and `[mid, hi)` change places, every
/// link in the list following the item it points to.
pub(crate) fn rotate(list: &mut Vec<Item>, lo: usize, mid: usize, hi: usize)
    requires
        lo <= mid <= hi <= old(list).len(),
    ensures
        views(final(list)@) == rotated(views(old(list)@), lo as int, mid as int, hi as int),
{
    let n: usize = list.len();
    let mut i: usize = 0;
    while i < n
        invariant
            lo <= mid <= hi <= n == list.len() == old(list).len(),
            i <= n,
            forall|t: int|
                0 <= t < i ==> list@[t]@ == relinked(old(list)@[t]@, lo as int, mid as int, hi as int),
            forall|t: int| i <= t < n ==> list@[t] == old(list)@[t],
        decreases n - i,
    {
        relink(&mut list[i], lo, mid, hi);
        i += 1;
    }
    let ghost linked = list@;
    let mut first = list.split_off(lo);
    let mut second = first.split_off(mid - lo);
    let mut rest = second.split_off(hi - mid);
    list.append(&mut second);
    list.append(&mut first);
    list.append(&mut rest);
    assert(list@ =~= linked.subrange(0, lo as int) + linked.subrange(mid as int, hi as int)
        + linked.subrange(lo as int, mid as int) + linked.subrange(hi as int, n as int));
    assert(views(list@) =~= rotated(views(old(list)@), lo as int, mid as int, hi as int));
}

/// A copy of every item.
pub(crate) fn clone_items(list: &Vec<Item>) -> (out: Vec<Item>)
    ensures
        views(out@) == views(list@),
{
    let mut out: Vec<Item> = Vec::new();
    let mut i: usize = 0;
    while i < list.len()
        invariant
            i <= list.len(),
            out.len() == i,
            forall|t: int| 0 <= t < i ==> out@[t]@ == list@[t]@,
        decreases list.len() - i,
    {
        out.push(list[i].clone());
        i += 1;
    }
    assert(views(out@) =~= views(list@));
    out
}

} // verus!
