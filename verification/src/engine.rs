//! The application state: the active and the completed list, which of the two
//! has the focus, the status line, and the record of operations that undo
//! walks back.

use vstd::prelude::*;
use vstd::string::*;
use crate::codec::ParseError;
use crate::flat::Panel;
use crate::stored::{load, loaded, save, storable, stored, texts};
use crate::item::Item;
use crate::list::{List, ListError, ListView, rows, shown_count};
use crate::text::{decode_key, edited_cursor, edited_text, EditKey, key_meaning, trimmed};
use crate::timestamp::{read_clock, Timestamp};

verus! {

/// What an operation did.
#[derive(Clone, Copy, Debug, PartialEq, Eq, Structural)]
pub enum Action {
    Delete,
    DragUp,
    DragDown,
    Transfer,
    Mark,
    Insert,
    Append,
    Edit,
}

/// One operation as undo remembers it: what was done, and with which list in
/// focus.
#[derive(Clone, Copy, Debug, PartialEq, Eq, Structural)]
pub struct Operation {
    pub action: Action,
    pub panel: Panel,
}

/// Whether keys go to the lists or to the text of the item under the cursor.
#[derive(Clone, Copy, Debug, PartialEq, Eq, Structural)]
pub enum Mode {
    /// Keys are commands.
    Normal,
    /// Keys edit the text; the value is the offset of the text cursor, in
    /// characters.
    Editing(usize),
}

impl Action {
    /// The name of the action as the status line shows it.
    pub open spec fn label(self) -> Seq<char> {
        match self {
            Action::Delete => "Delete"@,
            Action::DragUp => "Drag up"@,
            Action::DragDown => "Drag down"@,
            Action::Transfer => "Transfer"@,
            Action::Mark => "Mark"@,
            Action::Insert => "Insert"@,
            Action::Append => "Append"@,
            Action::Edit => "Edit"@,
        }
    }

    /// The name of the action as the status line shows it.
    pub fn name(&self) -> (s: &'static str)
        ensures
            s@ == self.label(),
    {
        match self {
            Action::Delete => "Delete",
            Action::DragUp => "Drag up",
            Action::DragDown => "Drag down",
            Action::Transfer => "Transfer",
            Action::Mark => "Mark",
            Action::Insert => "Insert",
            Action::Append => "Append",
            Action::Edit => "Edit",
        }
    }

    /// The name of the action as the status line shows it.
    pub fn to_string(&self) -> (s: String)
        ensures
            s@ == self.label(),
    {
        String::from_str(self.name())
    }
}

impl Operation {
    /// The record of `action` on the list in `panel`.
    pub fn new(action: Action, panel: Panel) -> (op: Self)
        ensures
            op == (Operation { action, panel }),
    {
        Self { action, panel }
    }

    /// Whether the operation took a snapshot of the list in `panel`: a
    /// transfer takes one of both lists, any other of the list in focus.
    pub open spec fn touches(self, panel: Panel) -> bool {
        self.action == Action::Transfer || self.panel == panel
    }
}

/// How many snapshots the operations `ops` took of the list in `panel`.
pub open spec fn owed(ops: Seq<Operation>, panel: Panel) -> nat
    decreases ops.len(),
{
    if ops.len() == 0 {
        0
    } else {
        owed(ops.drop_last(), panel) + if ops.last().touches(panel) {
            1nat
        } else {
            0nat
        }
    }
}

/// What the status line says when `action` fails with `err`.
pub open spec fn failure_text(action: Action, err: ListError) -> Seq<char> {
    match (action, err) {
        (Action::DragUp, ListError::EmptyList) => "Can't drag up. List is empty."@,
        (Action::DragUp, ListError::AlreadyAtTop) => "Can't drag up. Item is already at the top."@,
        (Action::DragDown, ListError::EmptyList) => "Can't drag down. List is empty."@,
        (Action::DragDown, ListError::AlreadyAtBottom) => "Can't drag down. Item is already at the bottom."@,
        (_, ListError::CannotLeaveParent) => "Can't move a subtask out from its parent."@,
        (Action::Mark, ListError::EmptyList) => "Can't mark item. List is empty."@,
        (_, ListError::HasActiveSubtasks) => "Can't mark item. Item has active subtasks."@,
        (Action::Transfer, ListError::EmptyList) => "Can't transfer item. List is empty."@,
        (_, ListError::NotARoot) => "Can't transfer item. Item is a subtask."@,
        (_, ListError::StillActive) => "Can't transfer item. Item is still active."@,
        (Action::Delete, ListError::EmptyList) => "Can't delete item. List is empty."@,
        (_, ListError::CannotInsert) => "Can't insert item. Current item is a subtask."@,
        (Action::Append, ListError::EmptyList) => "Can't add subtask item. List is empty."@,
        (_, ListError::NothingToUndo) => "Nothing to undo."@,
        (_, ListError::EmptyList) => "List is empty."@,
        (_, ListError::AlreadyAtTop) => "Item is already at the top."@,
        (_, ListError::AlreadyAtBottom) => "Item is already at the bottom."@,
    }
}

/// What the status line says when `action` fails with `err`.
pub fn describe(action: Action, err: ListError) -> (s: &'static str)
    ensures
        s@ == failure_text(action, err),
{
    match (action, err) {
        (Action::DragUp, ListError::EmptyList) => "Can't drag up. List is empty.",
        (Action::DragUp, ListError::AlreadyAtTop) => "Can't drag up. Item is already at the top.",
        (Action::DragDown, ListError::EmptyList) => "Can't drag down. List is empty.",
        (Action::DragDown, ListError::AlreadyAtBottom) => "Can't drag down. Item is already at the bottom.",
        (_, ListError::CannotLeaveParent) => "Can't move a subtask out from its parent.",
        (Action::Mark, ListError::EmptyList) => "Can't mark item. List is empty.",
        (_, ListError::HasActiveSubtasks) => "Can't mark item. Item has active subtasks.",
        (Action::Transfer, ListError::EmptyList) => "Can't transfer item. List is empty.",
        (_, ListError::NotARoot) => "Can't transfer item. Item is a subtask.",
        (_, ListError::StillActive) => "Can't transfer item. Item is still active.",
        (Action::Delete, ListError::EmptyList) => "Can't delete item. List is empty.",
        (_, ListError::CannotInsert) => "Can't insert item. Current item is a subtask.",
        (Action::Append, ListError::EmptyList) => "Can't add subtask item. List is empty.",
        (_, ListError::NothingToUndo) => "Nothing to undo.",
        (_, ListError::EmptyList) => "List is empty.",
        (_, ListError::AlreadyAtTop) => "Item is already at the top.",
        (_, ListError::AlreadyAtBottom) => "Item is already at the bottom.",
    }
}

/// The application state as mathematical values.
pub ghost struct AppView {
    /// The status line.
    pub message: Seq<char>,
    /// The list in focus.
    pub panel: Panel,
    /// Whether subtasks are hidden.
    pub hide_subs: bool,
    /// The operations that undo can take back, the oldest first.
    pub ops: Seq<Operation>,
    /// The active list.
    pub todos: ListView,
    /// The completed list.
    pub dones: ListView,
    /// Normal or editing.
    pub mode: Mode,
}

/// The list with its cursor on a root: where it stands on a subtask, it moves
/// up to the nearest root.
pub open spec fn settled(l: ListView) -> ListView {
    if l.items.len() > 0 && !l.items[l.cursor].is_root() {
        l.at(l.up(false))
    } else {
        l
    }
}

impl AppView {
    /// The invariant of the state: both lists are well formed, each has one
    /// snapshot for every recorded operation that took one of it, and while a
    /// text is being edited the newest operation is the one that opened it.
    pub open spec fn wf(self) -> bool {
        &&& self.todos.wf()
        &&& self.dones.wf()
        &&& self.todos.history.len() == owed(self.ops, Panel::Todo)
        &&& self.dones.history.len() == owed(self.ops, Panel::Done)
        &&& self.mode is Editing ==> {
            &&& self.ops.len() > 0
            &&& self.ops.last().panel == self.panel
            &&& self.focused().items.len() > 0
            &&& match self.ops.last().action {
                Action::Insert | Action::Append => self.panel == Panel::Todo,
                Action::Edit => true,
                _ => false,
            }
        }
    }

    /// The list in `panel`.
    pub open spec fn list(self, panel: Panel) -> ListView {
        match panel {
            Panel::Todo => self.todos,
            Panel::Done => self.dones,
        }
    }

    /// The list in focus.
    pub open spec fn focused(self) -> ListView {
        self.list(self.panel)
    }

    /// This state with `l` as the list in `panel`.
    pub open spec fn with_list(self, panel: Panel, l: ListView) -> AppView {
        match panel {
            Panel::Todo => AppView { todos: l, ..self },
            Panel::Done => AppView { dones: l, ..self },
        }
    }

    /// This state with `l` as the list in focus.
    pub open spec fn with_focused(self, l: ListView) -> AppView {
        self.with_list(self.panel, l)
    }

    /// This state with `text` added to the status line.
    pub open spec fn say(self, text: Seq<char>) -> AppView {
        AppView { message: self.message + text, ..self }
    }

    /// This state with `action` on the list in focus added to the record.
    pub open spec fn logged(self, action: Action) -> AppView {
        AppView { ops: self.ops.push(Operation { action, panel: self.panel }), ..self }
    }

    /// Whether commands are taken.
    pub open spec fn is_normal(self) -> bool {
        self.mode == Mode::Normal
    }

    /// This state after an operation on the list in focus that ended with
    /// `result` and, where it went well, left the list as `after`, a snapshot
    /// taken before. Success is recorded and `praise` said; failure is said
    /// and changes nothing else.
    pub open spec fn attempt(
        self,
        action: Action,
        result: Result<(), ListError>,
        after: ListView,
        praise: Seq<char>,
    ) -> AppView {
        match result {
            Ok(_) => self.with_focused(after).logged(action).say(praise),
            Err(e) => self.say(failure_text(action, e)),
        }
    }

    /// This state after the lines of the file `file_path` were read at the
    /// time `now`, and how reading ended. Without lines the file does not
    /// exist.
    pub open spec fn parse(
        self,
        file_path: Seq<char>,
        lines: Option<&Vec<String>>,
        now: Timestamp,
    ) -> (AppView, Result<(), ParseError>) {
        match lines {
            None => (
                AppView { message: "File '"@ + file_path + "' not found. Creating a new one."@, ..self },
                Ok(()),
            ),
            Some(stored) => match loaded(texts(stored@), now) {
                Ok((todos, dones)) => (
                    AppView {
                        message: "Loaded '"@ + file_path + "' file."@,
                        todos: ListView { items: todos, cursor: 0, history: Seq::empty() },
                        dones: ListView { items: dones, cursor: 0, history: Seq::empty() },
                        ops: Seq::empty(),
                        mode: Mode::Normal,
                        ..self
                    },
                    Ok(()),
                ),
                Err(e) => (self, Err(e)),
            },
        }
    }

    /// The focus is on the other list.
    pub open spec fn toggle_panel(self) -> AppView {
        AppView { panel: self.panel.other(), ..self }
    }

    /// Subtasks are hidden, or shown again. When they are hidden, each cursor
    /// stands on a root.
    pub open spec fn toggle_subtasks(self) -> AppView {
        if self.hide_subs {
            AppView { hide_subs: false, ..self }
        } else {
            AppView { hide_subs: true, todos: settled(self.todos), dones: settled(self.dones), ..self }
        }
    }

    /// The cursor of the list in focus is one step up.
    pub open spec fn go_up(self) -> AppView {
        self.with_focused(self.focused().at(self.focused().up(!self.hide_subs)))
    }

    /// The cursor of the list in focus is one step down.
    pub open spec fn go_down(self) -> AppView {
        self.with_focused(self.focused().at(self.focused().down(!self.hide_subs)))
    }

    /// The cursor of the list in focus is on the first item.
    pub open spec fn go_top(self) -> AppView {
        self.with_focused(self.focused().at(0))
    }

    /// The cursor of the list in focus is at the bottom.
    pub open spec fn go_bottom(self) -> AppView {
        self.with_focused(self.focused().at(self.focused().last(!self.hide_subs)))
    }

    /// The item under the cursor of the list in focus is dragged up.
    pub open spec fn drag_up(self) -> AppView {
        let f = self.focused();
        self.attempt(Action::DragUp, f.drag_up_result(), f.recorded().dragged_up(), Seq::empty())
    }

    /// The item under the cursor of the list in focus is dragged down.
    pub open spec fn drag_down(self) -> AppView {
        let f = self.focused();
        self.attempt(Action::DragDown, f.drag_down_result(), f.recorded().dragged_down(), Seq::empty())
    }

    /// Marking works on the active list only.
    pub open spec fn mark_item(self, now: Timestamp) -> AppView {
        match self.panel {
            Panel::Todo => self.attempt(
                Action::Mark,
                self.todos.mark_result(),
                self.todos.recorded().marked(now),
                Seq::empty(),
            ),
            Panel::Done => self.say("Can't mark done item, try transfering it first."@),
        }
    }

    /// In the active list only subtasks can be deleted; in the completed list
    /// only roots.
    pub open spec fn delete_item(self) -> AppView {
        match self.panel {
            Panel::Todo => if self.todos.is_at_sub() {
                self.attempt(
                    Action::Delete,
                    self.todos.delete_result(),
                    self.todos.recorded().deleted(),
                    "A TODO subtask deleted."@,
                )
            } else {
                self.say("Can't delete a TODO item. Transfer it to DONEs first."@)
            },
            Panel::Done => if self.dones.is_at_root() {
                self.attempt(
                    Action::Delete,
                    self.dones.delete_result(),
                    self.dones.recorded().deleted(),
                    "A DONE item deleted."@,
                )
            } else {
                self.say("Can't delete a subtask. Only root items can be deleted."@)
            },
        }
    }

    /// The active list after the item under its cursor, if it is active, was
    /// marked complete at the time `now`, a snapshot taken before.
    pub open spec fn completed_todos(self, now: Timestamp) -> ListView {
        let t = self.todos.recorded();
        if t.items.len() > 0 && t.items[t.cursor].is_active() {
            t.marked(now)
        } else {
            t
        }
    }

    /// How moving the item under the cursor of the list in focus to the other
    /// list ends. An item of the active list is marked complete first, which
    /// fails if it has active subtasks; only roots move.
    pub open spec fn transfer_result(self, now: Timestamp) -> Result<(), ListError> {
        match self.panel {
            Panel::Todo => if self.todos.items.len() > 0 && self.todos.items[self.todos.cursor].is_active()
                && self.todos.mark_result() is Err {
                self.todos.mark_result()
            } else {
                self.completed_todos(now).transfer_result()
            },
            Panel::Done => self.dones.transfer_result(),
        }
    }

    /// The item under the cursor of the list in focus moves to the end of the
    /// other list, with everything below it. One that leaves the active list
    /// is marked complete first; one that comes back to it is reopened.
    pub open spec fn transfer_item(self, now: Timestamp) -> AppView {
        match self.transfer_result(now) {
            Ok(_) => match self.panel {
                Panel::Todo => AppView {
                    todos: self.completed_todos(now).transferred(),
                    dones: self.dones.recorded().received(self.completed_todos(now), now),
                    ..self
                }.logged(Action::Transfer).say("Done! Great job!"@),
                Panel::Done => AppView {
                    dones: self.dones.recorded().transferred(),
                    todos: self.todos.recorded().received(self.dones, now).marked_at(
                        self.todos.items.len() as int,
                        now,
                    ),
                    ..self
                }.logged(Action::Transfer).say("Not done yet? Keep going!"@),
            },
            Err(e) => self.say(failure_text(Action::Transfer, e)),
        }
    }

    /// The newest operation is taken back: each list it took a snapshot of
    /// goes back to that snapshot, and the focus to where it was.
    pub open spec fn undo(self) -> AppView {
        if self.ops.len() == 0 {
            self.say("Nothing to undo."@)
        } else {
            let op = self.ops.last();
            AppView {
                ops: self.ops.drop_last(),
                panel: op.panel,
                todos: if op.touches(Panel::Todo) {
                    self.todos.reverted()
                } else {
                    self.todos
                },
                dones: if op.touches(Panel::Done) {
                    self.dones.reverted()
                } else {
                    self.dones
                },
                message: self.message + "Undo: "@ + op.action.label(),
                ..self
            }
        }
    }

    /// New roots go into the active list only. Where one went in, its text is
    /// being edited.
    pub open spec fn insert_item(self, now: Timestamp) -> AppView {
        match self.panel {
            Panel::Todo => match self.todos.insert_result() {
                Ok(_) => AppView {
                    mode: Mode::Editing(0),
                    ..self.attempt(
                        Action::Insert,
                        Ok(()),
                        self.todos.recorded().inserted(now),
                        "What needs to be done?"@,
                    )
                },
                Err(e) => self.say(failure_text(Action::Insert, e)),
            },
            Panel::Done => self.say("Can't insert a new DONE item. Only new TODOs allowed."@),
        }
    }

    /// New subtasks go into the active list only. Where one went in, its text
    /// is being edited.
    pub open spec fn append_item(self, now: Timestamp) -> AppView {
        match self.panel {
            Panel::Todo => match self.todos.append_result() {
                Ok(_) => AppView {
                    mode: Mode::Editing(0),
                    ..self.attempt(
                        Action::Append,
                        Ok(()),
                        self.todos.recorded().appended(now),
                        "What needs to be done for the this TODO?"@,
                    )
                },
                Err(e) => self.say(failure_text(Action::Append, e)),
            },
            Panel::Done => self.say("Can't add subtasks for DONE items."@),
        }
    }

    /// The text of the item under the cursor is being edited, the text cursor
    /// at its end; an empty text, or none, cannot be edited.
    pub open spec fn edit_item(self) -> AppView {
        let len = self.focused().cur_text().len();
        if len > 0 {
            AppView {
                mode: Mode::Editing(len as usize),
                ..self.attempt(
                    Action::Edit,
                    Ok(()),
                    self.focused().recorded(),
                    "Editing current item."@,
                )
            }
        } else {
            self.say("Nothing to edit."@)
        }
    }

    /// One keystroke went to the text of the item under the cursor, with the
    /// text cursor at `cur`.
    pub open spec fn edit_item_with(self, cur: usize, key: EditKey) -> AppView {
        let f = self.focused();
        AppView {
            mode: Mode::Editing(edited_cursor(f.cur_text(), cur, key) as usize),
            ..self.with_focused(f.with_text(edited_text(f.cur_text(), cur, key)))
        }
    }

    /// Whether the text being edited was left empty.
    pub open spec fn text_is_empty(self) -> bool {
        self.focused().cur_text().len() == 0
    }

    /// Whether an empty text means that the new item is dropped: that is so
    /// after an insert or an append.
    pub open spec fn drops_empty(self) -> bool {
        self.panel == Panel::Todo && self.ops.last().action != Action::Edit
    }

    /// Whether editing can end: not with an empty text for an item that was
    /// there before.
    pub open spec fn can_finish(self) -> bool {
        !self.text_is_empty() || self.drops_empty()
    }

    /// Editing ends. An item that was put in and left empty is dropped with
    /// the snapshot and the record of its making. An item that was there
    /// before cannot be left empty: editing goes on. Any other text loses the
    /// white space around it.
    pub open spec fn finish_edit(self) -> AppView {
        let f = self.focused();
        if !self.text_is_empty() {
            AppView {
                mode: Mode::Normal,
                message: Seq::empty(),
                ..self.with_focused(f.with_text(trimmed(f.cur_text())))
            }
        } else if self.drops_empty() {
            AppView {
                mode: Mode::Normal,
                message: Seq::empty(),
                ops: self.ops.drop_last(),
                todos: self.todos.reverted(),
                ..self
            }
        } else {
            AppView {
                message: match self.panel {
                    Panel::Todo => "TODO item can't be empty."@,
                    Panel::Done => "DONE item can't be empty."@,
                },
                ..self
            }
        }
    }
}

/// The whole state of the program but the screen.
#[derive(Debug)]
pub struct TodoApp {
    pub(crate) message: String,
    pub(crate) panel: Panel,
    pub(crate) hide_subs: bool,
    pub(crate) operation_stack: Vec<Operation>,
    pub(crate) todos: List,
    pub(crate) dones: List,
    pub(crate) mode: Mode,
}

impl View for TodoApp {
    type V = AppView;

    open(crate) spec fn view(&self) -> AppView {
        AppView {
            message: self.message@,
            panel: self.panel,
            hide_subs: self.hide_subs,
            ops: self.operation_stack@,
            todos: self.todos@,
            dones: self.dones@,
            mode: self.mode,
        }
    }
}

/// One more operation owes one more snapshot of each list it touches.
pub proof fn lemma_owed_push(ops: Seq<Operation>, op: Operation, panel: Panel)
    ensures
        owed(ops.push(op), panel) == owed(ops, panel) + if op.touches(panel) {
            1nat
        } else {
            0nat
        },
{
    assert(ops.push(op).drop_last() =~= ops);
}

/// Adds `text` to the status line.
fn note(message: &mut String, text: &str)
    ensures
        final(message)@ == old(message)@ + text@,
{
    message.append(text);
}

/// Ends an operation on `list`, of which a snapshot was taken before: success
/// is recorded and `praise` said; failure is said and the snapshot given back.
fn settle(
    list: &mut List,
    message: &mut String,
    ops: &mut Vec<Operation>,
    panel: Panel,
    action: Action,
    result: Result<(), ListError>,
    praise: &str,
)
    requires
        old(list).wf(),
        old(list)@.history.len() > 0,
    ensures
        final(list).wf(),
        match result {
            Ok(_) => {
                &&& final(list)@ == old(list)@
                &&& final(ops)@ == old(ops)@.push(Operation { action, panel })
                &&& final(message)@ == old(message)@ + praise@
            },
            Err(e) => {
                &&& final(list)@ == old(list)@.reverted()
                &&& final(ops)@ == old(ops)@
                &&& final(message)@ == old(message)@ + failure_text(action, e)
            },
        },
{
    match result {
        Ok(_) => {
            ops.push(Operation::new(action, panel));
            note(message, praise);
        },
        Err(e) => {
            note(message, describe(action, e));
            let back = list.revert_state();
        },
    }
}

/// Giving back a snapshot that was just taken leaves the list as it was.
pub proof fn lemma_record_revert(l: ListView)
    ensures
        l.recorded().reverted() == l,
{
    assert(l.recorded().history.drop_last() =~= l.history);
}

impl TodoApp {
    /// The invariant of the state.
    pub open spec fn wf(&self) -> bool {
        self@.wf()
    }

    /// Two empty lists, the active one in focus.
    pub fn new() -> (app: Self)
        ensures
            app.wf(),
            app@.message.len() == 0,
            app@.panel == Panel::Todo,
            !app@.hide_subs,
            app@.ops.len() == 0,
            app@.mode == Mode::Normal,
            app@.todos.items.len() == 0 && app@.todos.cursor == 0 && app@.todos.history.len() == 0,
            app@.dones.items.len() == 0 && app@.dones.cursor == 0 && app@.dones.history.len() == 0,
    {
        Self {
            message: String::new(),
            panel: Panel::Todo,
            hide_subs: false,
            operation_stack: Vec::new(),
            todos: List::new(),
            dones: List::new(),
            mode: Mode::Normal,
        }
    }

    /// A state made of two lists without history.
    pub fn from_lists(todos: List, dones: List) -> (app: Self)
        requires
            todos.wf(),
            dones.wf(),
            todos@.history.len() == 0,
            dones@.history.len() == 0,
        ensures
            app.wf(),
            app@ == (AppView {
                message: Seq::empty(),
                panel: Panel::Todo,
                hide_subs: false,
                ops: Seq::empty(),
                todos: todos@,
                dones: dones@,
                mode: Mode::Normal,
            }),
    {
        let app = Self {
            message: String::new(),
            panel: Panel::Todo,
            hide_subs: false,
            operation_stack: Vec::new(),
            todos,
            dones,
            mode: Mode::Normal,
        };
        assert(app@.message =~= Seq::<char>::empty());
        assert(app@.ops =~= Seq::<Operation>::empty());
        app
    }

    /// Whether the active list is in focus.
    pub fn is_in_todos(&self) -> (b: bool)
        ensures
            b == (self@.panel == Panel::Todo),
    {
        self.panel == Panel::Todo
    }

    /// Whether the completed list is in focus.
    pub fn is_in_dones(&self) -> (b: bool)
        ensures
            b == (self@.panel == Panel::Done),
    {
        self.panel == Panel::Done
    }

    /// Whether subtasks are hidden.
    pub fn is_subs_hidden(&self) -> (b: bool)
        ensures
            b == self@.hide_subs,
    {
        self.hide_subs
    }

    /// Whether a text is being edited.
    pub fn is_in_edit(&self) -> (b: bool)
        ensures
            b == self@.mode is Editing,
    {
        match self.mode {
            Mode::Normal => false,
            Mode::Editing(_) => true,
        }
    }

    /// Normal or editing.
    pub fn mode(&self) -> (m: Mode)
        ensures
            m == self@.mode,
    {
        self.mode
    }

    /// Whether `todo` holds the same values as the item under the cursor of
    /// the active list.
    pub fn is_cur_todo(&self, todo: &Item) -> (b: bool)
        ensures
            b == (self@.todos.cursor < self@.todos.items.len() && self@.todos.items[self@.todos.cursor]
                == todo@),
    {
        match self.todos.get_cur_item() {
            Some(t) => t.same_as(todo),
            None => false,
        }
    }

    /// Whether `done` holds the same values as the item under the cursor of
    /// the completed list.
    pub fn is_cur_done(&self, done: &Item) -> (b: bool)
        ensures
            b == (self@.dones.cursor < self@.dones.items.len() && self@.dones.items[self@.dones.cursor]
                == done@),
    {
        match self.dones.get_cur_item() {
            Some(d) => d.same_as(done),
            None => false,
        }
    }

    /// The status line.
    pub fn get_message(&self) -> (m: &String)
        ensures
            m@ == self@.message,
    {
        &self.message
    }

    /// The active list.
    pub fn todos(&self) -> (l: &List)
        ensures
            l@ == self@.todos,
            self.wf() ==> l.wf(),
    {
        &self.todos
    }

    /// The completed list.
    pub fn dones(&self) -> (l: &List)
        ensures
            l@ == self@.dones,
            self.wf() ==> l.wf(),
    {
        &self.dones
    }

    /// The rows of the active list that are shown, each with the position of
    /// its item and the item's depth.
    pub fn iter_todos(&self) -> (out: Vec<(usize, usize)>)
        requires
            self.wf(),
        ensures
            out@ == rows(self@.todos.items, self@.hide_subs),
    {
        self.todos.rows(self.hide_subs)
    }

    /// The rows of the completed list that are shown, each with the position
    /// of its item and the item's depth.
    pub fn iter_dones(&self) -> (out: Vec<(usize, usize)>)
        requires
            self.wf(),
        ensures
            out@ == rows(self@.dones.items, self@.hide_subs),
    {
        self.dones.rows(self.hide_subs)
    }

    /// The number of active items: all of them, or the roots only.
    pub fn get_todos_n(&self, full: bool) -> (n: usize)
        ensures
            n == shown_count(self@.todos.items, full),
    {
        self.todos.count(full)
    }

    /// The number of completed items: all of them, or the roots only.
    pub fn get_dones_n(&self, full: bool) -> (n: usize)
        ensures
            n == shown_count(self@.dones.items, full),
    {
        self.dones.count(full)
    }

    /// Empties the status line.
    pub fn clear_message(&mut self)
        ensures
            final(self)@ == (AppView { message: Seq::empty(), ..old(self)@ }),
            old(self).wf() ==> final(self).wf(),
    {
        self.message = String::new();
        assert(self@.message =~= Seq::<char>::empty());
    }

    /// Reads both lists from their stored form, the lines of the file
    /// `file_path`, or starts with what is there if the file does not exist
    /// (`lines` is `None`). The status line says which. A file that cannot be
    /// read changes nothing.
    ///
    /// # Panics
    ///
    /// It reads the clock, which panics where the system clock stands before
    /// 1970; `parse_at` takes the time as an argument and does not.
    pub fn parse(&mut self, file_path: &str, lines: Option<&Vec<String>>) -> (r: Result<
        (),
        ParseError,
    >)
        requires
            old(self).wf(),
        ensures
            final(self).wf(),
            exists|now: Timestamp| #[trigger] old(self)@.parse(file_path@, lines, now) == (final(self)@, r),
    {
        let now = read_clock();
        self.parse_at(file_path, lines, now)
    }

    /// Reads both lists from their stored form at the time `now`.
    pub fn parse_at(&mut self, file_path: &str, lines: Option<&Vec<String>>, now: Timestamp) -> (r:
        Result<(), ParseError>)
        requires
            old(self).wf(),
        ensures
            final(self).wf(),
            old(self)@.parse(file_path@, lines, now) == (final(self)@, r),
    {
        match lines {
            None => {
                let mut message = String::from_str("File '");
                note(&mut message, file_path);
                note(&mut message, "' not found. Creating a new one.");
                self.message = message;
                Ok(())
            },
            Some(stored) => match load(stored, now) {
                Ok((todos, dones)) => {
                    let mut message = String::from_str("Loaded '");
                    note(&mut message, file_path);
                    note(&mut message, "' file.");
                    self.message = message;
                    self.todos = todos;
                    self.dones = dones;
                    self.operation_stack = Vec::new();
                    self.mode = Mode::Normal;
                    proof {
                        assert(self@.ops =~= Seq::<Operation>::empty());
                        assert(self@.todos.history =~= Seq::empty());
                        assert(self@.dones.history =~= Seq::empty());
                    }
                    Ok(())
                },
                Err(e) => Err(e),
            },
        }
    }

    /// Shows the subtasks again and writes both lists in their stored form,
    /// one line in each string. The result is `None` where a list cannot be
    /// stored.
    pub fn save(&mut self) -> (r: Option<Vec<String>>)
        requires
            old(self).wf(),
        ensures
            final(self).wf(),
            final(self)@ == (AppView { hide_subs: false, ..old(self)@ }),
            match r {
                Some(lines) => {
                    &&& storable(old(self)@.todos.items, false)
                    &&& storable(old(self)@.dones.items, true)
                    &&& texts(lines@) == stored(old(self)@.todos.items, old(self)@.dones.items)
                },
                None => !(storable(old(self)@.todos.items, false) && storable(
                    old(self)@.dones.items,
                    true,
                )),
            },
    {
        self.hide_subs = false;
        save(&self.todos, &self.dones)
    }

    /// Moves the focus to the other list.
    pub fn toggle_panel(&mut self)
        requires
            old(self).wf(),
            old(self)@.is_normal(),
        ensures
            final(self).wf(),
            final(self)@ == old(self)@.toggle_panel(),
    {
        self.panel = self.panel.togle();
    }

    /// Hides the subtasks, or shows them again. When they are hidden, a
    /// cursor that stands on a subtask moves up to the nearest root.
    pub fn toggle_subtasks(&mut self)
        requires
            old(self).wf(),
            old(self)@.is_normal(),
        ensures
            final(self).wf(),
            final(self)@ == old(self)@.toggle_subtasks(),
    {
        self.hide_subs = !self.hide_subs;
        if self.hide_subs {
            if !self.todos.is_at_root() {
                self.todos.up(false);
            }
            if !self.dones.is_at_root() {
                self.dones.up(false);
            }
        }
    }

    /// Moves the cursor of the list in focus one step up.
    pub fn go_up(&mut self)
        requires
            old(self).wf(),
            old(self)@.is_normal(),
        ensures
            final(self).wf(),
            final(self)@ == old(self)@.go_up(),
    {
        match self.panel {
            Panel::Todo => self.todos.up(!self.hide_subs),
            Panel::Done => self.dones.up(!self.hide_subs),
        }
    }

    /// Moves the cursor of the list in focus one step down.
    pub fn go_down(&mut self)
        requires
            old(self).wf(),
            old(self)@.is_normal(),
        ensures
            final(self).wf(),
            final(self)@ == old(self)@.go_down(),
    {
        match self.panel {
            Panel::Todo => self.todos.down(!self.hide_subs),
            Panel::Done => self.dones.down(!self.hide_subs),
        }
    }

    /// Moves the cursor of the list in focus to the first item.
    pub fn go_top(&mut self)
        requires
            old(self).wf(),
            old(self)@.is_normal(),
        ensures
            final(self).wf(),
            final(self)@ == old(self)@.go_top(),
    {
        match self.panel {
            Panel::Todo => self.todos.first(),
            Panel::Done => self.dones.first(),
        }
    }

    /// Moves the cursor of the list in focus to its middle: with subtasks
    /// shown to the item at half the length, else to the root that has half of
    /// the roots before it.
    pub fn go_half(&mut self)
        requires
            old(self).wf(),
            old(self)@.is_normal(),
        ensures
            final(self).wf(),
            final(self)@ == old(self)@.with_focused(
                old(self)@.focused().at(final(self)@.focused().cursor),
            ),
            old(self)@.focused().is_half(!old(self)@.hide_subs, final(self)@.focused().cursor),
    {
        match self.panel {
            Panel::Todo => self.todos.half(!self.hide_subs),
            Panel::Done => self.dones.half(!self.hide_subs),
        }
    }

    /// Moves the cursor of the list in focus to the bottom.
    pub fn go_bottom(&mut self)
        requires
            old(self).wf(),
            old(self)@.is_normal(),
        ensures
            final(self).wf(),
            final(self)@ == old(self)@.go_bottom(),
    {
        match self.panel {
            Panel::Todo => self.todos.last(!self.hide_subs),
            Panel::Done => self.dones.last(!self.hide_subs),
        }
    }

    /// Drags the item under the cursor up past the sibling before it.
    pub fn drag_up(&mut self)
        requires
            old(self).wf(),
            old(self)@.is_normal(),
        ensures
            final(self).wf(),
            final(self)@ == old(self)@.drag_up(),
    {
        proof {
            lemma_record_revert(self@.focused());
            lemma_owed_push(self@.ops, Operation { action: Action::DragUp, panel: self.panel }, Panel::Todo);
            lemma_owed_push(self@.ops, Operation { action: Action::DragUp, panel: self.panel }, Panel::Done);
        }
        match self.panel {
            Panel::Todo => {
                self.todos.record_state();
                let r = self.todos.drag_up();
                settle(
                    &mut self.todos,
                    &mut self.message,
                    &mut self.operation_stack,
                    Panel::Todo,
                    Action::DragUp,
                    r,
                    "",
                );
            },
            Panel::Done => {
                self.dones.record_state();
                let r = self.dones.drag_up();
                settle(
                    &mut self.dones,
                    &mut self.message,
                    &mut self.operation_stack,
                    Panel::Done,
                    Action::DragUp,
                    r,
                    "",
                );
            },
        }
        proof {
            reveal_strlit("");
            assert(old(self)@.message + ""@ =~= old(self)@.message);
        }
    }

    /// Drags the item under the cursor down past the sibling behind it.
    pub fn drag_down(&mut self)
        requires
            old(self).wf(),
            old(self)@.is_normal(),
        ensures
            final(self).wf(),
            final(self)@ == old(self)@.drag_down(),
    {
        proof {
            lemma_record_revert(self@.focused());
            lemma_owed_push(self@.ops, Operation { action: Action::DragDown, panel: self.panel }, Panel::Todo);
            lemma_owed_push(self@.ops, Operation { action: Action::DragDown, panel: self.panel }, Panel::Done);
        }
        match self.panel {
            Panel::Todo => {
                self.todos.record_state();
                let r = self.todos.drag_down();
                settle(
                    &mut self.todos,
                    &mut self.message,
                    &mut self.operation_stack,
                    Panel::Todo,
                    Action::DragDown,
                    r,
                    "",
                );
            },
            Panel::Done => {
                self.dones.record_state();
                let r = self.dones.drag_down();
                settle(
                    &mut self.dones,
                    &mut self.message,
                    &mut self.operation_stack,
                    Panel::Done,
                    Action::DragDown,
                    r,
                    "",
                );
            },
        }
        proof {
            reveal_strlit("");
            assert(old(self)@.message + ""@ =~= old(self)@.message);
        }
    }

    /// Marks the item under the cursor of the active list: completes it if it
    /// is active, reopens it if it is complete.
    ///
    /// # Panics
    ///
    /// It reads the clock, which panics where the system clock stands before
    /// 1970; `mark_item_at` takes the time as an argument and does not.
    pub fn mark_item(&mut self)
        requires
            old(self).wf(),
            old(self)@.is_normal(),
        ensures
            final(self).wf(),
            exists|now: Timestamp| final(self)@ == old(self)@.mark_item(now),
    {
        let now = read_clock();
        self.mark_item_at(now);
    }

    /// Marks the item under the cursor of the active list at the time `now`.
    pub fn mark_item_at(&mut self, now: Timestamp)
        requires
            old(self).wf(),
            old(self)@.is_normal(),
        ensures
            final(self).wf(),
            final(self)@ == old(self)@.mark_item(now),
    {
        proof {
            lemma_record_revert(self@.focused());
            lemma_owed_push(self@.ops, Operation { action: Action::Mark, panel: self.panel }, Panel::Todo);
            lemma_owed_push(self@.ops, Operation { action: Action::Mark, panel: self.panel }, Panel::Done);
        }
        match self.panel {
            Panel::Todo => {
                self.todos.record_state();
                let r = self.todos.mark(now);
                settle(
                    &mut self.todos,
                    &mut self.message,
                    &mut self.operation_stack,
                    Panel::Todo,
                    Action::Mark,
                    r,
                    "",
                );
                proof {
                    reveal_strlit("");
                    assert(old(self)@.message + ""@ =~= old(self)@.message);
                }
            },
            Panel::Done => {
                note(&mut self.message, "Can't mark done item, try transfering it first.");
            },
        }
    }

    /// Deletes the item under the cursor of the list in focus with everything
    /// below it: in the active list a subtask, in the completed list a root.
    pub fn delete_item(&mut self)
        requires
            old(self).wf(),
            old(self)@.is_normal(),
        ensures
            final(self).wf(),
            final(self)@ == old(self)@.delete_item(),
    {
        proof {
            lemma_record_revert(self@.focused());
            lemma_owed_push(self@.ops, Operation { action: Action::Delete, panel: self.panel }, Panel::Todo);
            lemma_owed_push(self@.ops, Operation { action: Action::Delete, panel: self.panel }, Panel::Done);
        }
        match self.panel {
            Panel::Todo => {
                if self.todos.is_at_sub() {
                    self.todos.record_state();
                    let r = self.todos.delete();
                    settle(
                        &mut self.todos,
                        &mut self.message,
                        &mut self.operation_stack,
                        Panel::Todo,
                        Action::Delete,
                        r,
                        "A TODO subtask deleted.",
                    );
                } else {
                    note(&mut self.message, "Can't delete a TODO item. Transfer it to DONEs first.");
                }
            },
            Panel::Done => {
                if self.dones.is_at_root() {
                    self.dones.record_state();
                    let r = self.dones.delete();
                    settle(
                        &mut self.dones,
                        &mut self.message,
                        &mut self.operation_stack,
                        Panel::Done,
                        Action::Delete,
                        r,
                        "A DONE item deleted.",
                    );
                } else {
                    note(&mut self.message, "Can't delete a subtask. Only root items can be deleted.");
                }
            },
        }
    }

    /// Moves the item under the cursor of the list in focus, with everything
    /// below it, to the end of the other list.
    ///
    /// # Panics
    ///
    /// It reads the clock, which panics where the system clock stands before
    /// 1970; `transfer_item_at` takes the time as an argument and does not.
    pub fn transfer_item(&mut self)
        requires
            old(self).wf(),
            old(self)@.is_normal(),
        ensures
            final(self).wf(),
            exists|now: Timestamp| final(self)@ == old(self)@.transfer_item(now),
    {
        let now = read_clock();
        self.transfer_item_at(now);
    }

    /// Moves the item under the cursor of the list in focus, with everything
    /// below it, to the end of the other list, at the time `now`.
    pub fn transfer_item_at(&mut self, now: Timestamp)
        requires
            old(self).wf(),
            old(self)@.is_normal(),
        ensures
            final(self).wf(),
            final(self)@ == old(self)@.transfer_item(now),
    {
        proof {
            lemma_record_revert(self@.todos);
            lemma_record_revert(self@.dones);
            lemma_owed_push(self@.ops, Operation { action: Action::Transfer, panel: self.panel }, Panel::Todo);
            lemma_owed_push(self@.ops, Operation { action: Action::Transfer, panel: self.panel }, Panel::Done);
        }
        self.todos.record_state();
        self.dones.record_state();
        match self.panel {
            Panel::Todo => {
                let active: bool = match self.todos.get_cur_item() {
                    Some(item) => item.is_active(),
                    None => false,
                };
                let marked: Result<(), ListError> = if active {
                    self.todos.mark(now)
                } else {
                    Ok(())
                };
                let moved: Result<(), ListError> = match marked {
                    Ok(_) => self.todos.transfer(&mut self.dones, now),
                    Err(e) => Err(e),
                };
                match moved {
                    Ok(_) => {
                        self.operation_stack.push(Operation::new(Action::Transfer, Panel::Todo));
                        note(&mut self.message, "Done! Great job!");
                    },
                    Err(e) => {
                        note(&mut self.message, describe(Action::Transfer, e));
                        let a = self.todos.revert_state();
                        let b = self.dones.revert_state();
                    },
                }
            },
            Panel::Done => {
                let at: usize = self.todos.len();
                match self.dones.transfer(&mut self.todos, now) {
                    Ok(_) => {
                        proof {
                            crate::edits::lemma_graft_links(
                                old(self)@.todos.items,
                                old(self)@.dones.items,
                                old(self)@.dones.cursor,
                                now,
                            );
                            crate::forest::lemma_subtree_end(
                                old(self)@.dones.items,
                                old(self)@.dones.cursor,
                            );
                        }
                        let reopened = self.todos.mark_at(at, now);
                        self.operation_stack.push(Operation::new(Action::Transfer, Panel::Done));
                        note(&mut self.message, "Not done yet? Keep going!");
                    },
                    Err(e) => {
                        note(&mut self.message, describe(Action::Transfer, e));
                        let a = self.todos.revert_state();
                        let b = self.dones.revert_state();
                    },
                }
            },
        }
    }

    /// Takes back the newest operation.
    pub fn undo(&mut self)
        requires
            old(self).wf(),
            old(self)@.is_normal(),
        ensures
            final(self).wf(),
            final(self)@ == old(self)@.undo(),
    {
        match self.operation_stack.pop() {
            Some(op) => {
                assert(old(self)@.ops.last() == op);
                match op.action {
                    Action::Transfer => {
                        let a = self.todos.revert_state();
                        let b = self.dones.revert_state();
                    },
                    _ => match op.panel {
                        Panel::Todo => {
                            let a = self.todos.revert_state();
                        },
                        Panel::Done => {
                            let b = self.dones.revert_state();
                        },
                    },
                }
                self.panel = op.panel;
                note(&mut self.message, "Undo: ");
                note(&mut self.message, op.action.name());
            },
            None => {
                note(&mut self.message, "Nothing to undo.");
            },
        }
    }

    /// Puts a new root into the active list and starts editing its text.
    /// The result is the offset of the text cursor, or `None` where no item
    /// went in.
    ///
    /// # Panics
    ///
    /// It reads the clock, which panics where the system clock stands before
    /// 1970; `insert_item_at` takes the time as an argument and does not.
    pub fn insert_item(&mut self) -> (cur: Option<usize>)
        requires
            old(self).wf(),
            old(self)@.is_normal(),
        ensures
            final(self).wf(),
            exists|now: Timestamp| final(self)@ == old(self)@.insert_item(now),
            cur == match final(self)@.mode {
                Mode::Editing(c) => Some(c),
                Mode::Normal => None,
            },
    {
        let now = read_clock();
        self.insert_item_at(now)
    }

    /// Puts a new root, stamped with `now`, into the active list and starts
    /// editing its text.
    pub fn insert_item_at(&mut self, now: Timestamp) -> (cur: Option<usize>)
        requires
            old(self).wf(),
            old(self)@.is_normal(),
        ensures
            final(self).wf(),
            final(self)@ == old(self)@.insert_item(now),
            cur == match final(self)@.mode {
                Mode::Editing(c) => Some(c),
                Mode::Normal => None,
            },
    {
        proof {
            lemma_record_revert(self@.focused());
            lemma_owed_push(self@.ops, Operation { action: Action::Insert, panel: self.panel }, Panel::Todo);
            lemma_owed_push(self@.ops, Operation { action: Action::Insert, panel: self.panel }, Panel::Done);
        }
        match self.panel {
            Panel::Todo => {
                self.todos.record_state();
                let r = self.todos.insert(now);
                settle(
                    &mut self.todos,
                    &mut self.message,
                    &mut self.operation_stack,
                    Panel::Todo,
                    Action::Insert,
                    r,
                    "What needs to be done?",
                );
                match r {
                    Ok(_) => {
                        proof {
                            crate::edits::lemma_with_leaf(
                                old(self)@.todos.items,
                                old(self)@.todos.cursor,
                                None,
                                now,
                            );
                        }
                        self.mode = Mode::Editing(0);
                        Some(0)
                    },
                    Err(_) => None,
                }
            },
            Panel::Done => {
                note(&mut self.message, "Can't insert a new DONE item. Only new TODOs allowed.");
                None
            },
        }
    }

    /// Adds a new subtask to the item under the cursor of the active list and
    /// starts editing its text. The result is the offset of the text cursor,
    /// or `None` where no item went in.
    ///
    /// # Panics
    ///
    /// It reads the clock, which panics where the system clock stands before
    /// 1970; `append_item_at` takes the time as an argument and does not.
    pub fn append_item(&mut self) -> (cur: Option<usize>)
        requires
            old(self).wf(),
            old(self)@.is_normal(),
        ensures
            final(self).wf(),
            exists|now: Timestamp| final(self)@ == old(self)@.append_item(now),
            cur == match final(self)@.mode {
                Mode::Editing(c) => Some(c),
                Mode::Normal => None,
            },
    {
        let now = read_clock();
        self.append_item_at(now)
    }

    /// Adds a new subtask, stamped with `now`, to the item under the cursor
    /// of the active list and starts editing its text.
    pub fn append_item_at(&mut self, now: Timestamp) -> (cur: Option<usize>)
        requires
            old(self).wf(),
            old(self)@.is_normal(),
        ensures
            final(self).wf(),
            final(self)@ == old(self)@.append_item(now),
            cur == match final(self)@.mode {
                Mode::Editing(c) => Some(c),
                Mode::Normal => None,
            },
    {
        proof {
            lemma_record_revert(self@.focused());
            lemma_owed_push(self@.ops, Operation { action: Action::Append, panel: self.panel }, Panel::Todo);
            lemma_owed_push(self@.ops, Operation { action: Action::Append, panel: self.panel }, Panel::Done);
        }
        match self.panel {
            Panel::Todo => {
                self.todos.record_state();
                let r = self.todos.append(now);
                settle(
                    &mut self.todos,
                    &mut self.message,
                    &mut self.operation_stack,
                    Panel::Todo,
                    Action::Append,
                    r,
                    "What needs to be done for the this TODO?",
                );
                match r {
                    Ok(_) => {
                        proof {
                            crate::forest::lemma_subtree_end(
                                old(self)@.todos.items,
                                old(self)@.todos.cursor,
                            );
                        }
                        self.mode = Mode::Editing(0);
                        Some(0)
                    },
                    Err(_) => None,
                }
            },
            Panel::Done => {
                note(&mut self.message, "Can't add subtasks for DONE items.");
                None
            },
        }
    }

    /// Starts editing the text of the item under the cursor of the list in
    /// focus. The result is the offset of the text cursor, the end of the
    /// text, or `None` where there is no text to edit.
    pub fn edit_item(&mut self) -> (cur: Option<usize>)
        requires
            old(self).wf(),
            old(self)@.is_normal(),
        ensures
            final(self).wf(),
            final(self)@ == old(self)@.edit_item(),
            cur == match final(self)@.mode {
                Mode::Editing(c) => Some(c),
                Mode::Normal => None,
            },
    {
        proof {
            lemma_owed_push(self@.ops, Operation { action: Action::Edit, panel: self.panel }, Panel::Todo);
            lemma_owed_push(self@.ops, Operation { action: Action::Edit, panel: self.panel }, Panel::Done);
        }
        let editing_cursor: usize = match self.panel {
            Panel::Todo => self.todos.cur_text_len(),
            Panel::Done => self.dones.cur_text_len(),
        };
        if editing_cursor > 0 {
            match self.panel {
                Panel::Todo => {
                    self.todos.record_state();
                },
                Panel::Done => {
                    self.dones.record_state();
                },
            }
            self.operation_stack.push(Operation::new(Action::Edit, self.panel));
            self.mode = Mode::Editing(editing_cursor);
            note(&mut self.message, "Editing current item.");
            Some(editing_cursor)
        } else {
            note(&mut self.message, "Nothing to edit.");
            None
        }
    }

    /// Applies the key with the curses code `key` to the text being edited,
    /// with the text cursor at `cur`, and moves `cur` along.
    pub fn edit_item_with(&mut self, cur: &mut usize, key: i32)
        requires
            old(self).wf(),
            old(self)@.mode is Editing,
        ensures
            final(self).wf(),
            final(self)@ == old(self)@.edit_item_with(*old(cur), key_meaning(key)),
            final(self)@.mode == Mode::Editing(*final(cur)),
    {
        self.edit_item_with_key(cur, decode_key(key))
    }

    /// Applies one keystroke to the text being edited, with the text cursor
    /// at `cur`, and moves `cur` along.
    pub fn edit_item_with_key(&mut self, cur: &mut usize, key: EditKey)
        requires
            old(self).wf(),
            old(self)@.mode is Editing,
        ensures
            final(self).wf(),
            final(self)@ == old(self)@.edit_item_with(*old(cur), key),
            final(self)@.mode == Mode::Editing(*final(cur)),
    {
        match self.panel {
            Panel::Todo => self.todos.edit_with(cur, key),
            Panel::Done => self.dones.edit_with(cur, key),
        }
        self.mode = Mode::Editing(*cur);
    }

    /// Ends editing, and says whether it did.
    pub fn finish_edit(&mut self) -> (done: bool)
        requires
            old(self).wf(),
            old(self)@.mode is Editing,
        ensures
            final(self).wf(),
            done == old(self)@.can_finish(),
            final(self)@ == old(self)@.finish_edit(),
    {
        self.clear_message();
        let empty: bool = match self.panel {
            Panel::Todo => self.todos.cur_text_len() == 0,
            Panel::Done => self.dones.cur_text_len() == 0,
        };
        let ghost before = old(self)@;
        match self.panel {
            Panel::Todo => {
                if empty {
                    let act = self.operation_stack[self.operation_stack.len() - 1].action;
                    match act {
                        Action::Edit => {
                            note(&mut self.message, "TODO item can't be empty.");
                            assert(self@.message =~= "TODO item can't be empty."@);
                            return false;
                        },
                        _ => {
                            let back = self.todos.revert_state();
                            let op = self.operation_stack.pop();
                            self.mode = Mode::Normal;
                            return true;
                        },
                    }
                }
                self.todos.trim_cur_text();
            },
            Panel::Done => {
                if empty {
                    note(&mut self.message, "DONE item can't be empty.");
                    assert(self@.message =~= "DONE item can't be empty."@);
                    return false;
                }
                self.dones.trim_cur_text();
            },
        }
        self.mode = Mode::Normal;
        true
    }
}

} // verus!
