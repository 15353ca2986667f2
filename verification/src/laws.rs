//! What holds of the lists and of the application state whatever their
//! content: the shape that every edit keeps, how completion shows above an
//! item, what undo gives back, and where dragging stops.

use vstd::prelude::*;
use crate::activity::{lemma_marked, lemma_parent_of_active, marked};
use crate::engine::{Action, AppView, Mode, Operation};
use crate::flat::Panel;
use crate::forest::{
    active_kids, count_ok, in_subtree, lemma_subtree_end, lemma_subtrees_are_contiguous, nested,
    par, subtree_end, well_formed,
};
use crate::item::ItemView;
use crate::list::{
    lemma_root_before, lemma_root_from, ListError, ListView, next_sibling, prev_sibling,
    root_before, root_from, sibling_before,
};
use crate::text::EditKey;
use crate::timestamp::Timestamp;

verus! {

/// After each of the edits that change the shape of a list (a new root, a new
/// subtask, a deletion, a drag up or down, a transfer out) the items are well
/// formed again, and so the subtree of every item is the run of positions
/// from the item to its subtree end.
pub proof fn lemma_edits_keep_subtrees_contiguous(l: ListView, now: Timestamp)
    requires
        l.wf(),
    ensures
        l.inserted(now).wf(),
        l.appended(now).wf(),
        l.deleted().wf(),
        l.dragged_up().wf(),
        l.dragged_down().wf(),
        l.transferred().wf(),
        forall|i: int, j: int|
            0 <= i < l.items.len() && 0 <= j < l.items.len() ==> (#[trigger] in_subtree(l.items, i, j) <==> i
                <= j < subtree_end(l.items, i)),
{
    lemma_subtrees_are_contiguous(l.items);
    if l.insert_result() is Ok {
        crate::edits::lemma_with_leaf(l.items, l.cursor, None, now);
    }
    if l.append_result() is Ok {
        let at = subtree_end(l.items, l.cursor);
        lemma_subtree_end(l.items, l.cursor);
        crate::edits::lemma_with_leaf(l.items, at, Some(l.cursor), now);
        crate::activity::lemma_activated(
            crate::edits::with_leaf(l.items, at, Some(l.cursor), now),
            l.cursor,
        );
    }
    if l.delete_result() is Ok {
        crate::edits::lemma_removed(l.items, l.cursor);
        lemma_subtree_end(l.items, l.cursor);
    }
    if l.drag_up_result() is Ok {
        let prev = prev_sibling(l.items, l.cursor);
        lemma_prev_sibling(l.items, l.cursor, l.cursor);
        lemma_subtree_end(l.items, l.cursor);
        crate::edits::lemma_swapped(l.items, prev, l.cursor, subtree_end(l.items, l.cursor));
    }
    if l.drag_down_result() is Ok {
        let next = next_sibling(l.items, l.cursor);
        lemma_subtree_end(l.items, l.cursor);
        lemma_subtree_end(l.items, next);
        assert(-1 <= par(l.items, l.cursor) < l.cursor);
        assert(-1 <= par(l.items, next) < next);
        crate::edits::lemma_swapped(l.items, l.cursor, next, subtree_end(l.items, next));
    }
}

/// The nearest item before `c` with the parent of `c` is the sibling whose
/// subtree ends where `c` starts.
pub proof fn lemma_prev_sibling(items: Seq<ItemView>, c: int, upto: int)
    requires
        nested(items),
        0 <= upto <= c < items.len(),
        forall|x: int| upto <= x < c ==> (#[trigger] items[x]).parent != items[c].parent,
    ensures
        -1 <= sibling_before(items, c, upto) < upto,
        sibling_before(items, c, upto) >= 0 ==> {
            let j = sibling_before(items, c, upto);
            &&& items[j].parent == items[c].parent
            &&& crate::forest::is_block(items, j, c)
        },
        sibling_before(items, c, upto) == -1 ==> forall|x: int|
            0 <= x < c ==> (#[trigger] items[x]).parent != items[c].parent,
    decreases upto,
{
    if upto > 0 {
        if items[upto - 1].parent == items[c].parent {
            let j = upto - 1;
            assert(-1 <= par(items, j) < j);
            assert forall|x: int| j < x < c implies #[trigger] par(items, x) >= j by {
                assert(items[x].parent != items[c].parent);
                assert(-1 <= par(items, x) < x);
                assert(-1 <= par(items, c) < c);
                assert(par(items, c) < x ==> par(items, c) <= par(items, x));
                assert(par(items, x) < j ==> par(items, x) <= par(items, j));
            }
        } else {
            lemma_prev_sibling(items, c, upto - 1);
        }
    }
}

/// Marking complete a subtask that has no active subtasks of its own takes
/// exactly one off the count of its parent and changes no other count. So
/// where the parent is a root, every item above the subtask counts one less.
/// Where the subtask was the parent's last active one, the parent can be
/// marked complete in turn.
pub proof fn lemma_completing_a_subtask(l: ListView, now: Timestamp)
    requires
        l.wf(),
        l.items.len() > 0,
        l.items[l.cursor].act_cnt == 1,
        par(l.items, l.cursor) >= 0,
    ensures
        l.mark_result() is Ok,
        l.marked(now).items.len() == l.items.len(),
        l.marked(now).items[l.cursor].act_cnt == 0,
        l.marked(now).items[par(l.items, l.cursor)].act_cnt == l.items[par(l.items, l.cursor)].act_cnt
            - 1,
        forall|i: int|
            0 <= i < l.items.len() && i != l.cursor && i != par(l.items, l.cursor) ==> (
            #[trigger] l.marked(now).items[i]).act_cnt == l.items[i].act_cnt,
        l.items[par(l.items, l.cursor)].is_root() ==> forall|a: int|
            0 <= a < l.items.len() && a != l.cursor && #[trigger] in_subtree(l.items, a, l.cursor)
                ==> l.marked(now).items[a].act_cnt == l.items[a].act_cnt - 1,
        active_kids(l.items, l.items[par(l.items, l.cursor)].children) == 1 ==> l.marked(now).at(
            par(l.items, l.cursor),
        ).mark_result() is Ok,
{
    let c = l.cursor;
    let p = par(l.items, c);
    assert(-1 <= par(l.items, c) < c);
    lemma_parent_of_active(l.items, c);
    lemma_marked(l.items, c, now);
    assert(count_ok(l.items, p));
    if l.items[p].is_root() {
        assert forall|a: int|
            0 <= a < l.items.len() && a != c && #[trigger] in_subtree(l.items, a, c) implies a == p by {
            assert(in_subtree(l.items, a, p));
        }
    }
}

/// An item counts zero only when nothing below it is active.
pub proof fn lemma_complete_above_means_complete_below(items: Seq<ItemView>, i: int, j: int)
    requires
        well_formed(items),
        0 <= i < items.len(),
        0 <= j < items.len(),
        in_subtree(items, i, j),
        items[i].act_cnt == 0,
    ensures
        items[j].act_cnt == 0,
    decreases j,
{
    if j != i {
        let p = par(items, j);
        assert(-1 <= par(items, j) < j);
        lemma_complete_above_means_complete_below(items, i, p);
        if items[j].act_cnt > 0 {
            lemma_parent_of_active(items, j);
        }
    }
}

/// Dragging up an item that has no sibling before it, and dragging down one
/// that has none behind it, fails and leaves the list as it is. For roots
/// that is the first and the last root of the list, and the failures are
/// `AlreadyAtTop` and `AlreadyAtBottom`.
pub proof fn lemma_drag_stops_at_the_edge(l: ListView)
    requires
        l.wf(),
        l.items.len() > 0,
        l.items[l.cursor].is_root(),
    ensures
        root_before(l.items, l.cursor) == -1 ==> l.drag_up_result() == Err::<(), ListError>(
            ListError::AlreadyAtTop,
        ) && l.dragged_up() == l,
        root_from(l.items, l.cursor + 1) == l.items.len() ==> l.drag_down_result() == Err::<
            (),
            ListError,
        >(ListError::AlreadyAtBottom) && l.dragged_down() == l,
{
    let c = l.cursor;
    if root_before(l.items, c) == -1 {
        lemma_root_before(l.items, c);
        lemma_prev_sibling(l.items, c, c);
        let j = prev_sibling(l.items, c);
        if j >= 0 {
            assert(l.items[j].is_root());
        }
    }
    if root_from(l.items, c + 1) == l.items.len() {
        lemma_root_from(l.items, c + 1);
        lemma_subtree_end(l.items, c);
        let e = subtree_end(l.items, c);
        if e < l.items.len() {
            assert(-1 <= par(l.items, e) < e);
            assert(!l.items[e].is_root());
        }
    }
}

/// Whether two states hold the same lists, with their cursors and snapshots,
/// the same record of operations and the same focus.
pub open spec fn same_lists(a: AppView, b: AppView) -> bool {
    &&& a.todos.items == b.todos.items
    &&& a.todos.cursor == b.todos.cursor
    &&& a.todos.history =~= b.todos.history
    &&& a.dones.items == b.dones.items
    &&& a.dones.cursor == b.dones.cursor
    &&& a.dones.history =~= b.dones.history
    &&& a.ops =~= b.ops
    &&& a.panel == b.panel
}

/// Undo after a drag, a mark, a deletion or a transfer that went well gives
/// back both lists with their cursors as they were before it.
pub proof fn lemma_undo_restores(app: AppView, now: Timestamp)
    ensures
        app.focused().drag_up_result() is Ok ==> same_lists(app.drag_up().undo(), app),
        app.focused().drag_down_result() is Ok ==> same_lists(app.drag_down().undo(), app),
        app.panel == Panel::Todo && app.todos.mark_result() is Ok ==> same_lists(
            app.mark_item(now).undo(),
            app,
        ),
        app.delete_item().ops.len() > app.ops.len() ==> same_lists(app.delete_item().undo(), app),
        app.transfer_result(now) is Ok ==> same_lists(app.transfer_item(now).undo(), app),
{
    let t = app.todos;
    let d = app.dones;
    assert(t.recorded().history.drop_last() =~= t.history);
    assert(d.recorded().history.drop_last() =~= d.history);
    assert forall|op: Operation| (#[trigger] app.ops.push(op)).drop_last() =~= app.ops by {}
    if app.focused().drag_up_result() is Ok {
        let s = app.drag_up();
        assert(s.ops.last() == Operation { action: Action::DragUp, panel: app.panel });
        assert(same_lists(s.undo(), app));
    }
    if app.focused().drag_down_result() is Ok {
        let s = app.drag_down();
        assert(s.ops.last() == Operation { action: Action::DragDown, panel: app.panel });
        assert(same_lists(s.undo(), app));
    }
    if app.panel == Panel::Todo && app.todos.mark_result() is Ok {
        let s = app.mark_item(now);
        assert(s.ops.last() == Operation { action: Action::Mark, panel: app.panel });
        assert(same_lists(s.undo(), app));
    }
    if app.delete_item().ops.len() > app.ops.len() {
        let s = app.delete_item();
        assert(s.ops.last() == Operation { action: Action::Delete, panel: app.panel });
        assert(same_lists(s.undo(), app));
    }
    if app.transfer_result(now) is Ok {
        let s = app.transfer_item(now);
        assert(s.ops.last() == Operation { action: Action::Transfer, panel: app.panel });
        assert(same_lists(s.undo(), app));
    }
}

/// The state after the keystrokes `keys`, each with the offset of the text
/// cursor it was pressed at, went to the text being edited.
pub open spec fn typed(app: AppView, keys: Seq<(usize, EditKey)>) -> AppView
    decreases keys.len(),
{
    if keys.len() == 0 {
        app
    } else {
        typed(app, keys.drop_last()).edit_item_with(keys.last().0, keys.last().1)
    }
}

/// Keystrokes change nothing but the text of the item under the cursor and
/// the offset of the text cursor.
pub proof fn lemma_typing_keeps_record(app: AppView, keys: Seq<(usize, EditKey)>)
    requires
        crate::list::cursor_ok(app.focused().items, app.focused().cursor),
    ensures
        typed(app, keys).ops == app.ops,
        typed(app, keys).panel == app.panel,
        typed(app, keys).list(app.panel.other()) == app.list(app.panel.other()),
        typed(app, keys).focused().history == app.focused().history,
        typed(app, keys).focused().cursor == app.focused().cursor,
        typed(app, keys).focused().items.len() == app.focused().items.len(),
    decreases keys.len(),
{
    if keys.len() > 0 {
        lemma_typing_keeps_record(app, keys.drop_last());
        let before = typed(app, keys.drop_last());
        let f = before.focused();
        let text = crate::text::edited_text(f.cur_text(), keys.last().0, keys.last().1);
        let g = f.with_text(text);
        assert(g.items.len() == f.items.len());
        assert(typed(app, keys) == before.edit_item_with(keys.last().0, keys.last().1));
        assert(typed(app, keys).focused() == g);
    }
}

/// Undo after an insert, an append or an edit, whatever was typed before the
/// text was committed, gives back both lists with their cursors as they were
/// before the item was put in or opened.
pub proof fn lemma_undo_restores_after_editing(
    app: AppView,
    now: Timestamp,
    keys: Seq<(usize, EditKey)>,
)
    requires
        app.wf(),
        app.is_normal(),
    ensures
        ({
            let s = typed(app.insert_item(now), keys);
            app.insert_item(now).mode is Editing && !s.text_is_empty() ==> same_lists(
                s.finish_edit().undo(),
                app,
            )
        }),
        ({
            let s = typed(app.append_item(now), keys);
            app.append_item(now).mode is Editing && !s.text_is_empty() ==> same_lists(
                s.finish_edit().undo(),
                app,
            )
        }),
        ({
            let s = typed(app.edit_item(), keys);
            app.edit_item().mode is Editing && !s.text_is_empty() ==> same_lists(
                s.finish_edit().undo(),
                app,
            )
        }),
{
    let t = app.todos;
    let d = app.dones;
    assert(t.recorded().history.drop_last() =~= t.history);
    assert(d.recorded().history.drop_last() =~= d.history);
    assert forall|op: Operation| (#[trigger] app.ops.push(op)).drop_last() =~= app.ops by {}
    lemma_edits_keep_subtrees_contiguous(t, now);
    lemma_typing_keeps_record(app.insert_item(now), keys);
    lemma_typing_keeps_record(app.append_item(now), keys);
    lemma_typing_keeps_record(app.edit_item(), keys);
    if app.insert_item(now).mode is Editing {
        let s = typed(app.insert_item(now), keys);
        assert(s.ops.last() == Operation { action: Action::Insert, panel: app.panel });
    }
    if app.append_item(now).mode is Editing {
        let s = typed(app.append_item(now), keys);
        assert(s.ops.last() == Operation { action: Action::Append, panel: app.panel });
    }
    if app.edit_item().mode is Editing {
        let s = typed(app.edit_item(), keys);
        assert(s.ops.last() == Operation { action: Action::Edit, panel: app.panel });
    }
}

/// A new item whose text is left empty is dropped when editing ends: both
/// lists, their snapshots and the record of operations are as they were
/// before the item was put in.
pub proof fn lemma_empty_item_leaves_no_trace(
    app: AppView,
    now: Timestamp,
    keys: Seq<(usize, EditKey)>,
)
    requires
        app.wf(),
        app.is_normal(),
    ensures
        ({
            let s = typed(app.insert_item(now), keys);
            app.insert_item(now).mode is Editing && s.text_is_empty() ==> s.can_finish() && same_lists(
                s.finish_edit(),
                app,
            ) && s.finish_edit().mode == Mode::Normal
        }),
        ({
            let s = typed(app.append_item(now), keys);
            app.append_item(now).mode is Editing && s.text_is_empty() ==> s.can_finish() && same_lists(
                s.finish_edit(),
                app,
            ) && s.finish_edit().mode == Mode::Normal
        }),
{
    let t = app.todos;
    assert(t.recorded().history.drop_last() =~= t.history);
    assert forall|op: Operation| (#[trigger] app.ops.push(op)).drop_last() =~= app.ops by {}
    lemma_edits_keep_subtrees_contiguous(t, now);
    lemma_typing_keeps_record(app.insert_item(now), keys);
    lemma_typing_keeps_record(app.append_item(now), keys);
    if app.insert_item(now).mode is Editing {
        let s = typed(app.insert_item(now), keys);
        assert(s.ops.last() == Operation { action: Action::Insert, panel: app.panel });
    }
    if app.append_item(now).mode is Editing {
        let s = typed(app.append_item(now), keys);
        assert(s.ops.last() == Operation { action: Action::Append, panel: app.panel });
    }
}

/// One call on a list that takes no snapshot and gives none back.
pub ghost enum ListStep {
    /// `insert` at the given time.
    Insert(Timestamp),
    /// `append` at the given time.
    Append(Timestamp),
    /// `delete`.
    Delete,
    /// `mark` at the given time.
    Mark(Timestamp),
    /// `drag_up`.
    DragUp,
    /// `drag_down`.
    DragDown,
    /// `transfer` to another list.
    TransferOut,
    /// `edit_with`, with the text cursor at the given offset.
    Edit(usize, EditKey),
    /// `trim_cur_text`.
    Trim,
    /// `up`, over all items or over roots only.
    Up(bool),
    /// `down`, over all items or over roots only.
    Down(bool),
    /// `first`.
    First,
    /// `half`, over all items or over roots only, which put the cursor at the
    /// given position.
    Half(bool, int),
    /// `last`, over all items or over roots only.
    Last(bool),
}

/// The list after one call. A call that fails leaves the list as it is.
pub open spec fn stepped(l: ListView, step: ListStep) -> ListView {
    match step {
        ListStep::Insert(now) => l.inserted(now),
        ListStep::Append(now) => l.appended(now),
        ListStep::Delete => l.deleted(),
        ListStep::Mark(now) => l.marked(now),
        ListStep::DragUp => l.dragged_up(),
        ListStep::DragDown => l.dragged_down(),
        ListStep::TransferOut => l.transferred(),
        ListStep::Edit(cur, key) => l.with_text(crate::text::edited_text(l.cur_text(), cur, key)),
        ListStep::Trim => l.with_text(crate::text::trimmed(l.cur_text())),
        ListStep::Up(full) => l.at(l.up(full)),
        ListStep::Down(full) => l.at(l.down(full)),
        ListStep::First => l.at(0),
        ListStep::Half(full, target) => if l.is_half(full, target) {
            l.at(target)
        } else {
            l
        },
        ListStep::Last(full) => l.at(l.last(full)),
    }
}

/// The list after the calls `steps`, one after the other.
pub open spec fn run(l: ListView, steps: Seq<ListStep>) -> ListView
    decreases steps.len(),
{
    if steps.len() == 0 {
        l
    } else {
        stepped(run(l, steps.drop_last()), steps.last())
    }
}

/// One call keeps a well-formed list well formed, and leaves its snapshots
/// alone.
pub proof fn lemma_step(l: ListView, step: ListStep)
    requires
        l.wf(),
    ensures
        stepped(l, step).wf(),
        stepped(l, step).history == l.history,
{
    let now = match step {
        ListStep::Insert(t) => t,
        ListStep::Append(t) => t,
        ListStep::Mark(t) => t,
        _ => Timestamp { secs: 0, nanos: 0, offset: 0 },
    };
    lemma_edits_keep_subtrees_contiguous(l, now);
    match step {
        ListStep::Mark(t) => {
            if l.mark_result() is Ok {
                lemma_marked(l.items, l.cursor, t);
            }
        },
        ListStep::Edit(cur, key) => {
            if l.items.len() > 0 {
                crate::activity::lemma_same_links(l.items, stepped(l, step).items);
            }
        },
        ListStep::Trim => {
            if l.items.len() > 0 {
                crate::activity::lemma_same_links(l.items, stepped(l, step).items);
            }
        },
        ListStep::Up(full) => {
            if l.cursor > 0 {
                lemma_root_before(l.items, l.cursor);
            }
        },
        ListStep::Down(full) => {
            if l.items.len() > 0 {
                lemma_root_from(l.items, l.cursor + 1);
            }
        },
        ListStep::Last(full) => {
            lemma_root_before(l.items, l.items.len() as int);
        },
        _ => {},
    }
}

/// A snapshot survives whatever is done to the list afterwards: after any
/// sequence of calls that change items, texts or the cursor, the snapshot
/// that was taken before them is still the newest one, the list is still
/// well formed, and giving the snapshot back restores the items, the cursor
/// and the older snapshots exactly as they were when it was taken.
pub proof fn lemma_snapshot_survives(l: ListView, steps: Seq<ListStep>)
    requires
        l.wf(),
    ensures
        run(l.recorded(), steps).wf(),
        run(l.recorded(), steps).history == l.recorded().history,
        run(l.recorded(), steps).reverted() == l,
    decreases steps.len(),
{
    let taken = l.recorded();
    assert(taken.history.drop_last() =~= l.history);
    assert(taken.wf());
    if steps.len() > 0 {
        lemma_snapshot_survives(l, steps.drop_last());
        lemma_step(run(taken, steps.drop_last()), steps.last());
    }
}

} // verus!
