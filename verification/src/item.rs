//! The record of one task or subtask.

use vstd::prelude::*;
use crate::text::{trim, trimmed};
use crate::timestamp::{render_stamp, rendered_stamp, SHORT_DATE_FMT, Timestamp};

verus! {

/// One task. Its links to other items are positions in the list that holds it.
#[derive(Debug)]
pub struct Item {
    pub(crate) text: String,
    pub(crate) date: Timestamp,
    pub(crate) parent: Option<usize>,
    pub(crate) children: Vec<usize>,
    pub(crate) act_cnt: usize,
}

/// What an item holds, as mathematical values.
pub ghost struct ItemView {
    /// The characters of the text.
    pub text: Seq<char>,
    /// When the item was created, completed or moved, whichever came last.
    pub date: Timestamp,
    /// The position of the item this one is a subtask of; `None` for a root.
    pub parent: Option<int>,
    /// The positions of the direct subtasks, in ascending order.
    pub children: Seq<int>,
    /// Zero for an item that is complete; otherwise one more than the number
    /// of its direct subtasks that are not.
    pub act_cnt: nat,
}

/// Positions as mathematical integers.
pub open spec fn ints(s: Seq<usize>) -> Seq<int> {
    Seq::new(s.len(), |k: int| s[k] as int)
}

/// An optional position as a mathematical integer.
pub open spec fn opt_int(p: Option<usize>) -> Option<int> {
    match p {
        Some(i) => Some(i as int),
        None => None,
    }
}

impl View for Item {
    type V = ItemView;

    open(crate) spec fn view(&self) -> ItemView {
        ItemView {
            text: self.text@,
            date: self.date,
            parent: opt_int(self.parent),
            children: ints(self.children@),
            act_cnt: self.act_cnt as nat,
        }
    }
}

impl ItemView {
    /// Whether the item counts as not yet complete.
    pub open spec fn is_active(self) -> bool {
        self.act_cnt > 0
    }

    /// Whether the item has no parent.
    pub open spec fn is_root(self) -> bool {
        self.parent is None
    }
}

/// Whether two vectors of positions hold the same positions in the same order.
pub(crate) fn same_positions(a: &Vec<usize>, b: &Vec<usize>) -> (same: bool)
    ensures
        same == (a@ == b@),
{
    if a.len() != b.len() {
        return false;
    }
    let mut k: usize = 0;
    while k < a.len()
        invariant
            k <= a.len() == b.len(),
            a@.take(k as int) =~= b@.take(k as int),
        decreases a.len() - k,
    {
        if a[k] != b[k] {
            return false;
        }
        assert(a@.take(k + 1) =~= a@.take(k as int).push(a@[k as int]));
        assert(b@.take(k + 1) =~= b@.take(k as int).push(b@[k as int]));
        k += 1;
    }
    assert(a@ =~= a@.take(k as int));
    assert(b@ =~= b@.take(k as int));
    true
}

impl Clone for Item {
    fn clone(&self) -> (out: Self)
        ensures
            out@ == self@,
    {
        Item {
            text: self.text.clone(),
            date: self.date,
            parent: self.parent,
            children: self.children.clone(),
            act_cnt: self.act_cnt,
        }
    }
}

impl Item {
    /// An item without subtasks.
    pub(crate) fn new(text: String, date: Timestamp, parent: Option<usize>, act_cnt: usize) -> (out:
        Self)
        ensures
            out@ == (ItemView {
                text: text@,
                date,
                parent: opt_int(parent),
                children: Seq::<int>::empty(),
                act_cnt: act_cnt as nat,
            }),
    {
        let out = Item { text, date, parent, children: Vec::new(), act_cnt };
        assert(out@.children =~= Seq::<int>::empty());
        out
    }

    /// The text of the item.
    pub fn get_text(&self) -> (text: &String)
        ensures
            text@ == self@.text,
    {
        &self.text
    }

    /// The item's date as `YY-MM-DD`, or `None` where the timestamp lies
    /// outside the calendar.
    pub fn get_date(&self) -> (out: Option<String>)
        ensures
            match out {
                Some(s) => rendered_stamp(
                    SHORT_DATE_FMT@,
                    self@.date.secs,
                    self@.date.nanos,
                    self@.date.offset,
                ) == Some(s@),
                None => rendered_stamp(
                    SHORT_DATE_FMT@,
                    self@.date.secs,
                    self@.date.nanos,
                    self@.date.offset,
                ) is None,
            },
    {
        render_stamp(&self.date, SHORT_DATE_FMT)
    }

    /// The timestamp of the item.
    pub fn get_timestamp(&self) -> (date: Timestamp)
        ensures
            date == self@.date,
    {
        self.date
    }

    /// Whether the item is not yet complete.
    pub fn is_active(&self) -> (b: bool)
        ensures
            b == self@.is_active(),
    {
        self.act_cnt > 0
    }

    /// Whether the item has subtasks.
    pub fn has_children(&self) -> (b: bool)
        ensures
            b == (self@.children.len() > 0),
    {
        self.children.len() > 0
    }

    /// Whether the item has no parent.
    pub fn is_root(&self) -> (b: bool)
        ensures
            b == self@.is_root(),
    {
        self.parent.is_none()
    }

    /// The position of the item's parent, if it has one.
    pub fn get_parent(&self) -> (p: Option<usize>)
        ensures
            opt_int(p) == self@.parent,
    {
        self.parent
    }

    /// The positions of the item's direct subtasks.
    pub fn get_children(&self) -> (c: &Vec<usize>)
        ensures
            ints(c@) == self@.children,
    {
        &self.children
    }

    /// The activity count of the item.
    pub fn active_count(&self) -> (n: usize)
        ensures
            n == self@.act_cnt,
    {
        self.act_cnt
    }

    /// Removes the white space around the text.
    pub(crate) fn trim_text(&mut self)
        ensures
            final(self)@ == (ItemView { text: trimmed(old(self)@.text), ..old(self)@ }),
    {
        self.text = trim(self.text.as_str());
    }

    /// Whether two items hold the same values.
    pub fn same_as(&self, other: &Item) -> (b: bool)
        ensures
            b == (self@ == other@),
    {
        let same_text = self.text == other.text;
        let same_date = self.date == other.date;
        let same_parent = match (self.parent, other.parent) {
            (Some(p), Some(q)) => p == q,
            (None, None) => true,
            _ => false,
        };
        let same_children = same_positions(&self.children, &other.children);
        proof {
            assert(self.children@.len() == self@.children.len());
            assert(other.children@.len() == other@.children.len());
            if self.children@ == other.children@ {
                assert(self@.children =~= other@.children);
            }
            if self@.children == other@.children {
                assert forall|k: int| 0 <= k < self.children@.len() implies self.children@[k]
                    == other.children@[k] by {
                    assert(self@.children[k] == self.children@[k] as int);
                    assert(other@.children[k] == other.children@[k] as int);
                }
                assert(self.children@ =~= other.children@);
            }
        }
        let same = same_text && same_date && same_parent && same_children && self.act_cnt
            == other.act_cnt;
        same
    }
}

} // verus!
