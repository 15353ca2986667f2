//! Whole lists in their stored form: how the lines of a file build the two
//! lists, and how the lists are written back.

use vstd::prelude::*;
use crate::activity::{lemma_same_shape, same_shape, with_count};
use crate::codec::{
    done_entry, done_line, indent, is_separator, ParseError, ParseErrorKind, read_done, read_todo,
    separator, todo_entry, todo_line, write_done, write_todo,
};
use crate::forest::{
    active_kids, children_listed, count_ok, is_block, kid_flags, lemma_children_bound, nested, par,
    views, well_formed,
};
use crate::item::{Item, ItemView};
use crate::list::{depth, List, Snapshot};
use crate::timestamp::{
    DATE_FMT, parse_stamp, parsed_stamp, render_stamp, rendered_stamp, Timestamp,
};

verus! {

/// The item reached from item `i` by going up `steps` parents.
pub open spec fn climb(items: Seq<ItemView>, i: int, steps: nat) -> int
    decreases steps,
{
    if steps == 0 {
        i
    } else {
        climb(items, par(items, i), (steps - 1) as nat)
    }
}

/// Where a new last item of depth `d` hangs: below nothing if it is a root,
/// else below the item of depth `d - 1` on the way up from the last item. The
/// outer `None` says that no such item is there: the list is empty, or `d` is
/// more than one level deeper than the last item.
pub open spec fn attach_to(items: Seq<ItemView>, d: nat) -> Option<Option<int>> {
    let last = items.len() - 1;
    if d == 0 {
        Some(None)
    } else if items.len() == 0 || d > depth(items, last) + 1 {
        None
    } else {
        Some(Some(climb(items, last, (depth(items, last) + 1 - d) as nat)))
    }
}

/// The items with one more at the end, below `parent` if that is given.
pub open spec fn placed(
    items: Seq<ItemView>,
    parent: Option<int>,
    text: Seq<char>,
    date: Timestamp,
    act_cnt: nat,
) -> Seq<ItemView> {
    let n = items.len() as int;
    let hooked = match parent {
        Some(p) => items.update(p, ItemView { children: items[p].children.push(n), ..items[p] }),
        None => items,
    };
    hooked.push(ItemView { text, date, parent, children: Seq::empty(), act_cnt })
}

/// The count that item `i` should have, going by its own mark and by its
/// subtasks: zero if it is not marked as active and no subtask is active,
/// else one more than the number of its active subtasks.
pub open spec fn recount_at(items: Seq<ItemView>, i: int) -> nat {
    let k = active_kids(items, items[i].children);
    if items[i].act_cnt > 0 || k > 0 {
        1 + k
    } else {
        0
    }
}

/// The items with the counts of the items from `i` on set right, the last
/// one first.
pub open spec fn recounted_from(items: Seq<ItemView>, i: int) -> Seq<ItemView>
    decreases items.len() - i,
{
    if i >= items.len() || i < 0 {
        items
    } else {
        let r = recounted_from(items, i + 1);
        with_count(r, i, recount_at(r, i))
    }
}

/// The items with every count set right: an item counts as active if it is
/// marked so or if a subtask of it is active.
pub open spec fn recounted(items: Seq<ItemView>) -> Seq<ItemView> {
    recounted_from(items, 0)
}

/// What has been read so far.
pub ghost struct Loaded {
    /// The active items, their counts 1 for a starred line and 0 for another.
    pub todos: Seq<ItemView>,
    /// The completed items.
    pub dones: Seq<ItemView>,
    /// Whether the separator line was read.
    pub in_dones: bool,
}

/// The state after one more line was read at the time `now`.
pub open spec fn load_line(state: Loaded, line: Seq<char>, now: Timestamp) -> Result<
    Loaded,
    ParseErrorKind,
> {
    if line == separator() {
        if state.in_dones {
            Err(ParseErrorKind::InvalidSeparator)
        } else {
            Ok(Loaded { in_dones: true, ..state })
        }
    } else {
        match indent(line) {
            None => Err(ParseErrorKind::InvalidIndentation),
            Some(d) => if state.in_dones {
                match attach_to(state.dones, d) {
                    None => Err(ParseErrorKind::InvalidIndentation),
                    Some(parent) => match done_entry(line) {
                        None => Err(ParseErrorKind::InvalidDone),
                        Some(e) => match parsed_stamp(DATE_FMT@, e.stamp) {
                            None => Err(ParseErrorKind::InvalidDate),
                            Some(date) => Ok(
                                Loaded { dones: placed(state.dones, parent, e.text, date, 0), ..state },
                            ),
                        },
                    },
                }
            } else {
                match attach_to(state.todos, d) {
                    None => Err(ParseErrorKind::InvalidIndentation),
                    Some(parent) => match todo_entry(line) {
                        None => Err(ParseErrorKind::InvalidTodo),
                        Some(e) => Ok(
                            Loaded {
                                todos: placed(
                                    state.todos,
                                    parent,
                                    e.text,
                                    now,
                                    if e.active {
                                        1
                                    } else {
                                        0
                                    },
                                ),
                                ..state
                            },
                        ),
                    },
                }
            },
        }
    }
}

/// The state after the lines were read at the time `now`, or the first line
/// that cannot be read.
pub open spec fn load_lines(lines: Seq<Seq<char>>, now: Timestamp) -> Result<Loaded, ParseError>
    decreases lines.len(),
{
    if lines.len() == 0 {
        Ok(Loaded { todos: Seq::empty(), dones: Seq::empty(), in_dones: false })
    } else {
        match load_lines(lines.drop_last(), now) {
            Err(e) => Err(e),
            Ok(state) => match load_line(state, lines.last(), now) {
                Ok(next) => Ok(next),
                Err(kind) => Err(ParseError { line: lines.len() as usize, kind }),
            },
        }
    }
}

/// The active and the completed items that the lines hold, read at the time
/// `now`, or the first line that cannot be read.
pub open spec fn loaded(lines: Seq<Seq<char>>, now: Timestamp) -> Result<
    (Seq<ItemView>, Seq<ItemView>),
    ParseError,
> {
    match load_lines(lines, now) {
        Ok(state) => Ok((recounted(state.todos), recounted(state.dones))),
        Err(e) => Err(e),
    }
}

/// The lines as sequences of characters.
pub open spec fn texts(lines: Seq<String>) -> Seq<Seq<char>> {
    Seq::new(lines.len(), |i: int| lines[i]@)
}

/// The timestamp of an item as the stored form writes it, if it can be
/// written.
pub open spec fn stamp_of(v: ItemView) -> Option<Seq<char>> {
    rendered_stamp(DATE_FMT@, v.date.secs, v.date.nanos, v.date.offset)
}

/// Whether the items can be stored as completed items: every timestamp can
/// be written, and no indentation is wider than a line can be.
pub open spec fn storable(items: Seq<ItemView>, as_done: bool) -> bool {
    &&& forall|i: int| 0 <= i < items.len() ==> 4 * #[trigger] depth(items, i) <= usize::MAX
    &&& as_done ==> forall|i: int| 0 <= i < items.len() ==> (#[trigger] stamp_of(items[i])) is Some
}

/// The lines of the active items.
pub open spec fn todo_lines(items: Seq<ItemView>) -> Seq<Seq<char>> {
    Seq::new(
        items.len(),
        |i: int| todo_line(depth(items, i), items[i].act_cnt > 0, items[i].text),
    )
}

/// The lines of the completed items.
pub open spec fn done_lines(items: Seq<ItemView>) -> Seq<Seq<char>> {
    Seq::new(
        items.len(),
        |i: int| done_line(depth(items, i), stamp_of(items[i]).unwrap(), items[i].text),
    )
}

/// The stored form of the two lists: the active items, the separator line,
/// the completed items.
pub open spec fn stored(todos: Seq<ItemView>, dones: Seq<ItemView>) -> Seq<Seq<char>> {
    todo_lines(todos).push(separator()) + done_lines(dones)
}

/// The item reached by going up from an item lies on the way to the end of
/// the list: going up `steps` parents from the last item leads to an item
/// whose subtree reaches the end.
pub proof fn lemma_climb(items: Seq<ItemView>, i: int, steps: nat)
    requires
        nested(items),
        0 <= i < items.len(),
        is_block(items, i, items.len() as int),
        steps <= depth(items, i),
    ensures
        0 <= climb(items, i, steps) <= i,
        depth(items, climb(items, i, steps)) == depth(items, i) - steps,
        is_block(items, climb(items, i, steps), items.len() as int),
    decreases steps,
{
    if steps > 0 {
        let p = par(items, i);
        assert(-1 <= par(items, i) < i);
        assert forall|x: int| p < x < items.len() implies #[trigger] par(items, x) >= p by {
            assert(-1 <= par(items, x) < x);
            if x < i {
                assert(par(items, i) < x ==> par(items, i) <= par(items, x));
            } else if x > i {
                assert(par(items, x) >= i);
            }
        }
        lemma_climb(items, p, (steps - 1) as nat);
    }
}

/// Putting an item at the end, where `attach_to` says, keeps parent links
/// and subtask lists in order.
pub proof fn lemma_placed(
    items: Seq<ItemView>,
    d: nat,
    text: Seq<char>,
    date: Timestamp,
    act_cnt: nat,
)
    requires
        nested(items),
        children_listed(items),
        attach_to(items, d) is Some,
    ensures
        nested(placed(items, attach_to(items, d).unwrap(), text, date, act_cnt)),
        children_listed(placed(items, attach_to(items, d).unwrap(), text, date, act_cnt)),
        depth(
            placed(items, attach_to(items, d).unwrap(), text, date, act_cnt),
            items.len() as int,
        ) == d,
        forall|i: int|
            0 <= i < items.len() ==> #[trigger] depth(
                placed(items, attach_to(items, d).unwrap(), text, date, act_cnt),
                i,
            ) == depth(items, i),
{
    let parent = attach_to(items, d).unwrap();
    let s = placed(items, parent, text, date, act_cnt);
    let n = items.len() as int;
    if d > 0 {
        assert(par(items, n - 1) < n - 1);
        lemma_climb(items, n - 1, (depth(items, n - 1) + 1 - d) as nat);
    }
    let p = match parent {
        Some(q) => q,
        None => -1,
    };
    assert forall|i: int| 0 <= i < n implies par(s, i) == par(items, i) && s[i].parent
        == items[i].parent by {}
    assert(par(s, n) == p);
    assert(nested(s)) by {
        assert forall|i: int| 0 <= i <= n implies -1 <= #[trigger] par(s, i) < i && (s[i].parent is Some
            ==> par(s, i) >= 0) by {
            if i < n {
                assert(-1 <= par(items, i) < i);
            }
        }
        assert forall|i: int, j: int| 0 <= i < j <= n && #[trigger] par(s, j) < i implies par(s, j)
            <= #[trigger] par(s, i) by {
            if j < n {
                assert(par(items, j) < i ==> par(items, j) <= par(items, i));
            } else if p >= 0 {
                assert(par(items, i) >= p);
            }
        }
    }
    assert(children_listed(s)) by {
        assert forall|i: int, k: int| 0 <= i <= n && 0 <= k < s[i].children.len() implies {
            let c = #[trigger] s[i].children[k];
            i < c <= n && par(s, c) == i
        } by {
            if i < n && k < items[i].children.len() {
                let c = items[i].children[k];
                assert(i < c < n && par(items, c) == i);
            }
        }
        assert forall|i: int, k: int, l: int|
            0 <= i <= n && 0 <= k < l < s[i].children.len() implies #[trigger] s[i].children[k]
            < #[trigger] s[i].children[l] by {
            if i < n {
                let c = items[i].children[k];
                assert(i < c < n && par(items, c) == i);
                if l < items[i].children.len() {
                    assert(items[i].children[k] < items[i].children[l]);
                }
            }
        }
        assert forall|j: int| 0 <= j <= n && par(s, j) >= 0 implies #[trigger] s[par(
            s,
            j,
        )].children.contains(j) by {
            let q = par(s, j);
            if j < n {
                assert(-1 <= par(items, j) < j);
                assert(items[q].children.contains(j));
                let y = choose|y: int| 0 <= y < items[q].children.len() && items[q].children[y] == j;
                assert(s[q].children[y] == j);
            } else {
                assert(s[q].children[items[q].children.len() as int] == j);
            }
        }
    }
    assert forall|i: int| 0 <= i < n implies #[trigger] depth(s, i) == depth(items, i) by {
        lemma_depth_kept(items, s, i);
    }
    if p >= 0 {
        lemma_depth_kept(items, s, p);
    }
}

/// The depth of an item depends on the parent links up to it only.
pub proof fn lemma_depth_kept(a: Seq<ItemView>, b: Seq<ItemView>, i: int)
    requires
        0 <= i < a.len() <= b.len(),
        forall|j: int| 0 <= j < a.len() ==> par(a, j) == par(b, j),
    ensures
        depth(a, i) == depth(b, i),
    decreases i,
{
    if 0 <= par(a, i) < i {
        lemma_depth_kept(a, b, par(a, i));
    }
}

/// Setting the counts right changes nothing but counts, and leaves every
/// count as it should be.
pub proof fn lemma_recounted(items: Seq<ItemView>, i: int)
    requires
        nested(items),
        children_listed(items),
        0 <= i <= items.len(),
    ensures
        same_shape(items, recounted_from(items, i)),
        forall|j: int|
            0 <= j < items.len() ==> (#[trigger] recounted_from(items, i)[j]).text == items[j].text
                && recounted_from(items, i)[j].date == items[j].date,
        forall|j: int| 0 <= j < i ==> (#[trigger] recounted_from(items, i)[j]).act_cnt == items[j].act_cnt,
        forall|j: int| i <= j < items.len() ==> #[trigger] count_ok(recounted_from(items, i), j),
    decreases items.len() - i,
{
    if i < items.len() {
        lemma_recounted(items, i + 1);
        let r = recounted_from(items, i + 1);
        let z = with_count(r, i, recount_at(r, i));
        assert(z == recounted_from(items, i));
        lemma_same_shape(items, r);
        assert forall|j: int| i <= j < items.len() implies #[trigger] count_ok(z, j) by {
            assert forall|c: int| 0 <= c < r.len() && par(r, c) == j implies ((#[trigger] r[c]).act_cnt > 0
                <==> z[c].act_cnt > 0) by {
                assert(-1 <= par(r, c) < c);
            }
            crate::activity::lemma_flags_kept(r, z, j);
            if j > i {
                assert(count_ok(r, j));
            }
        }
    }
}

/// A list whose counts have been set right is well formed.
pub proof fn lemma_recounted_well_formed(items: Seq<ItemView>)
    requires
        nested(items),
        children_listed(items),
    ensures
        well_formed(recounted(items)),
        recounted(items).len() == items.len(),
{
    lemma_recounted(items, 0);
    lemma_same_shape(items, recounted(items));
}

/// Adds an item of depth `d` at the end of `list`, if one can hang there:
/// as a root, or below the item of depth `d - 1` on the way up from the last
/// item. Its count is 1 if it is `active` and 0 if not, whatever its parent
/// counts.
pub fn place(list: &mut Vec<Item>, d: usize, text: String, date: Timestamp, active: bool) -> (ok: bool)
    requires
        nested(views(old(list)@)),
        children_listed(views(old(list)@)),
    ensures
        ok == attach_to(views(old(list)@), d as nat) is Some,
        ok ==> views(final(list)@) == placed(
            views(old(list)@),
            attach_to(views(old(list)@), d as nat).unwrap(),
            text@,
            date,
            if active {
                1
            } else {
                0
            },
        ),
        !ok ==> views(final(list)@) == views(old(list)@),
        nested(views(final(list)@)),
        children_listed(views(final(list)@)),
{
    let ghost before = views(list@);
    let n: usize = list.len();
    let act: usize = if active {
        1
    } else {
        0
    };
    proof {
        if attach_to(before, d as nat) is Some {
            lemma_placed(before, d as nat, text@, date, act as nat);
        }
    }
    if d == 0 {
        list.push(Item::new(text, date, None, act));
        assert(views(list@) =~= placed(before, None, text@, date, act as nat));
        return true;
    }
    if n == 0 {
        return false;
    }
    let last_depth: usize = crate::list::item_depth(list, n - 1);
    if d > last_depth + 1 {
        return false;
    }
    let mut steps: usize = last_depth + 1 - d;
    let mut p: usize = n - 1;
    while steps > 0
        invariant
            nested(before),
            before == views(list@),
            p < n == before.len(),
            steps <= depth(before, p as int),
            climb(before, n - 1, (last_depth + 1 - d) as nat) == climb(before, p as int, steps as nat),
        decreases steps,
    {
        assert(-1 <= par(before, p as int) < p);
        match list[p].parent {
            Some(q) => {
                p = q;
            },
            None => {},
        }
        steps -= 1;
    }
    list[p].children.push(n);
    list.push(Item::new(text, date, Some(p), act));
    assert(views(list@) =~= placed(before, Some(p as int), text@, date, act as nat)) by {
        assert(list@[p as int]@.children =~= before[p as int].children.push(n as int));
    }
    true
}

/// The number of active items among those at the positions `kids`.
fn count_active(list: &Vec<Item>, kids: &Vec<usize>) -> (k: usize)
    requires
        forall|x: int| 0 <= x < kids.len() ==> (#[trigger] kids@[x]) < list.len(),
    ensures
        k == active_kids(views(list@), crate::item::ints(kids@)),
        k <= kids.len(),
{
    let ghost flags = kid_flags(views(list@), crate::item::ints(kids@));
    let mut k: usize = 0;
    let mut x: usize = 0;
    while x < kids.len()
        invariant
            x <= kids.len(),
            k <= x,
            flags == kid_flags(views(list@), crate::item::ints(kids@)),
            forall|y: int| 0 <= y < kids.len() ==> (#[trigger] kids@[y]) < list.len(),
            k == crate::forest::count_true(flags.take(x as int)),
        decreases kids.len() - x,
    {
        let active: bool = list[kids[x]].act_cnt > 0;
        proof {
            assert(flags.take(x + 1).drop_last() =~= flags.take(x as int));
            assert(flags.take(x + 1).last() == active);
        }
        if active {
            k += 1;
        }
        x += 1;
    }
    assert(flags.take(x as int) =~= flags);
    k
}

/// Sets every count right, going by which items count more than zero: an
/// item is active if it did so or if a subtask of it is active.
pub fn recount(list: &mut Vec<Item>)
    requires
        nested(views(old(list)@)),
        children_listed(views(old(list)@)),
    ensures
        views(final(list)@) == recounted(views(old(list)@)),
        well_formed(views(final(list)@)),
{
    let ghost before = views(list@);
    let n: usize = list.len();
    let mut i: usize = n;
    proof {
        lemma_recounted_well_formed(before);
    }
    while i > 0
        invariant
            i <= n == list.len() == before.len(),
            nested(before),
            children_listed(before),
            views(list@) == recounted_from(before, i as int),
        decreases i,
    {
        let ghost now = views(list@);
        proof {
            lemma_recounted(before, i as int);
            lemma_same_shape(before, now);
            lemma_children_bound(now, i - 1);
            assert forall|x: int| 0 <= x < list@[i - 1].children.len() implies (
            #[trigger] list@[i - 1].children@[x]) < list.len() by {
                let c = now[i - 1].children[x];
                assert(i - 1 < c < now.len() && par(now, c) == i - 1);
            }
        }
        let k: usize = count_active(list, &list[i - 1].children);
        if list[i - 1].act_cnt > 0 || k > 0 {
            list[i - 1].act_cnt = 1 + k;
        } else {
            list[i - 1].act_cnt = 0;
        }
        assert(views(list@) =~= with_count(now, i - 1, recount_at(now, i - 1)));
        i -= 1;
    }
}

/// Reads the two lists from their stored form, one line in each string, at
/// the time `now`.
pub fn load(lines: &Vec<String>, now: Timestamp) -> (r: Result<(List, List), ParseError>)
    ensures
        match r {
            Ok((todos, dones)) => {
                &&& loaded(texts(lines@), now) == Ok::<(Seq<ItemView>, Seq<ItemView>), ParseError>(
                    (todos@.items, dones@.items),
                )
                &&& todos.wf() && todos@.cursor == 0 && todos@.history.len() == 0
                &&& dones.wf() && dones@.cursor == 0 && dones@.history.len() == 0
            },
            Err(e) => loaded(texts(lines@), now) == Err::<(Seq<ItemView>, Seq<ItemView>), ParseError>(e),
        },
{
    let mut todos: Vec<Item> = Vec::new();
    let mut dones: Vec<Item> = Vec::new();
    let mut in_dones: bool = false;
    let mut i: usize = 0;
    let ghost all = texts(lines@);
    assert(views(todos@) =~= Seq::<ItemView>::empty());
    assert(views(dones@) =~= Seq::<ItemView>::empty());
    while i < lines.len()
        invariant
            i <= lines.len(),
            all == texts(lines@),
            nested(views(todos@)),
            children_listed(views(todos@)),
            nested(views(dones@)),
            children_listed(views(dones@)),
            load_lines(all.take(i as int), now) == Ok::<Loaded, ParseError>(
                Loaded { todos: views(todos@), dones: views(dones@), in_dones },
            ),
        decreases lines.len() - i,
    {
        let line = lines[i].as_str();
        let ghost state = Loaded { todos: views(todos@), dones: views(dones@), in_dones };
        proof {
            assert(all.take(i + 1).drop_last() =~= all.take(i as int));
            assert(all.take(i + 1).last() == line@);
            assert(all.take(i as int).len() == i);
            assert(i + 1 <= usize::MAX);
        }
        let step: Result<(), ParseErrorKind> = if is_separator(line) {
            if in_dones {
                Err(ParseErrorKind::InvalidSeparator)
            } else {
                in_dones = true;
                Ok(())
            }
        } else if in_dones {
            match read_done(line) {
                None => {
                    proof {
                        crate::codec::lemma_no_entry_without_indent(line@);
                    }
                    match crate::codec::line_depth(line) {
                        None => Err(ParseErrorKind::InvalidIndentation),
                        Some(d) => if can_place(&dones, d) {
                            Err(ParseErrorKind::InvalidDone)
                        } else {
                            Err(ParseErrorKind::InvalidIndentation)
                        },
                    }
                },
                Some(e) => {
                    if !can_place(&dones, e.depth) {
                        Err(ParseErrorKind::InvalidIndentation)
                    } else {
                        match parse_stamp(e.stamp.as_str(), DATE_FMT) {
                            None => Err(ParseErrorKind::InvalidDate),
                            Some(date) => {
                                let ok = place(&mut dones, e.depth, e.text, date, false);
                                Ok(())
                            },
                        }
                    }
                },
            }
        } else {
            match read_todo(line) {
                None => {
                    proof {
                        crate::codec::lemma_no_entry_without_indent(line@);
                    }
                    match crate::codec::line_depth(line) {
                        None => Err(ParseErrorKind::InvalidIndentation),
                        Some(d) => if can_place(&todos, d) {
                            Err(ParseErrorKind::InvalidTodo)
                        } else {
                            Err(ParseErrorKind::InvalidIndentation)
                        },
                    }
                },
                Some(e) => {
                    let ok = place(&mut todos, e.depth, e.text, now, e.active);
                    if ok {
                        Ok(())
                    } else {
                        Err(ParseErrorKind::InvalidIndentation)
                    }
                },
            }
        };
        match step {
            Ok(_) => {
                assert(load_line(state, line@, now) == Ok::<Loaded, ParseErrorKind>(
                    Loaded { todos: views(todos@), dones: views(dones@), in_dones },
                ));
            },
            Err(kind) => {
                assert(load_line(state, line@, now) == Err::<Loaded, ParseErrorKind>(kind));
                proof {
                    lemma_load_fails(all, i + 1, now);
                }
                return Err(ParseError { line: i + 1, kind });
            },
        }
        i += 1;
    }
    assert(all.take(i as int) =~= all);
    recount(&mut todos);
    recount(&mut dones);
    let one = List { state_stack: Vec::new(), cur: 0, list: todos };
    let two = List { state_stack: Vec::new(), cur: 0, list: dones };
    assert(one@.history =~= Seq::<Snapshot>::empty());
    assert(two@.history =~= Seq::<Snapshot>::empty());
    Ok((one, two))
}

/// Writes the two lists in their stored form, one line in each string. The
/// result is `None` where a list cannot be stored.
pub fn save(todos: &List, dones: &List) -> (r: Option<Vec<String>>)
    requires
        todos.wf(),
        dones.wf(),
    ensures
        match r {
            Some(lines) => {
                &&& storable(todos@.items, false)
                &&& storable(dones@.items, true)
                &&& texts(lines@) == stored(todos@.items, dones@.items)
            },
            None => !(storable(todos@.items, false) && storable(dones@.items, true)),
        },
{
    let mut lines: Vec<String> = Vec::new();
    let ghost active = todos@.items;
    let ghost complete = dones@.items;
    let limit: usize = usize::MAX / 4;
    let mut i: usize = 0;
    while i < todos.list.len()
        invariant
            todos.wf(),
            active == todos@.items,
            i <= active.len(),
            limit == usize::MAX / 4,
            lines.len() == i,
            forall|t: int| 0 <= t < i ==> 4 * #[trigger] depth(active, t) <= usize::MAX,
            forall|t: int| 0 <= t < i ==> (#[trigger] lines@[t])@ == todo_lines(active)[t],
        decreases todos.list.len() - i,
    {
        let level: usize = crate::list::item_depth(&todos.list, i);
        if level > limit {
            assert(4 * depth(active, i as int) > usize::MAX);
            return None;
        }
        let line = write_todo(level, todos.list[i].is_active(), todos.list[i].text.as_str());
        lines.push(line);
        i += 1;
    }
    lines.push(crate::text::from_chars(&vec!['<', '-', '-', '-', '>'], 0, 5));
    assert(lines@[i as int]@ =~= separator());
    let n: usize = i;
    let mut j: usize = 0;
    while j < dones.list.len()
        invariant
            dones.wf(),
            active == todos@.items,
            complete == dones@.items,
            n == active.len(),
            j <= complete.len(),
            limit == usize::MAX / 4,
            lines.len() == n + 1 + j,
            forall|t: int| 0 <= t < n ==> 4 * #[trigger] depth(active, t) <= usize::MAX,
            forall|t: int| 0 <= t < n ==> (#[trigger] lines@[t])@ == todo_lines(active)[t],
            lines@[n as int]@ == separator(),
            forall|t: int| 0 <= t < j ==> 4 * #[trigger] depth(complete, t) <= usize::MAX,
            forall|t: int| 0 <= t < j ==> (#[trigger] stamp_of(complete[t])) is Some,
            forall|t: int| 0 <= t < j ==> (#[trigger] lines@[n + 1 + t])@ == done_lines(complete)[t],
        decreases dones.list.len() - j,
    {
        let level: usize = crate::list::item_depth(&dones.list, j);
        if level > limit {
            assert(4 * depth(complete, j as int) > usize::MAX);
            return None;
        }
        match render_stamp(&dones.list[j].date, DATE_FMT) {
            Some(stamp) => {
                let line = write_done(level, stamp.as_str(), dones.list[j].text.as_str());
                lines.push(line);
            },
            None => {
                assert(stamp_of(complete[j as int]) is None);
                return None;
            },
        }
        j += 1;
    }
    proof {
        assert(storable(active, false));
        assert(storable(complete, true));
        let want = stored(active, complete);
        assert(texts(lines@).len() == want.len());
        assert forall|t: int| 0 <= t < want.len() implies texts(lines@)[t] == want[t] by {
            if t > n {
                assert(lines@[n + 1 + (t - n - 1)]@ == done_lines(complete)[t - n - 1]);
            }
        }
        assert(texts(lines@) =~= want);
    }
    Some(lines)
}

/// Once a line cannot be read, no more lines change that.
pub proof fn lemma_load_fails(lines: Seq<Seq<char>>, upto: int, now: Timestamp)
    requires
        0 <= upto <= lines.len(),
        load_lines(lines.take(upto), now) is Err,
    ensures
        load_lines(lines, now) == load_lines(lines.take(upto), now),
    decreases lines.len() - upto,
{
    if upto < lines.len() {
        assert(lines.take(upto + 1).drop_last() =~= lines.take(upto));
        lemma_load_fails(lines, upto + 1, now);
    } else {
        assert(lines.take(upto) =~= lines);
    }
}

/// Whether an item of depth `d` can hang at the end of `list`.
fn can_place(list: &Vec<Item>, d: usize) -> (ok: bool)
    requires
        nested(views(list@)),
    ensures
        ok == attach_to(views(list@), d as nat) is Some,
{
    if d == 0 {
        return true;
    }
    let n: usize = list.len();
    if n == 0 {
        return false;
    }
    let last_depth: usize = crate::list::item_depth(list, n - 1);
    d <= last_depth + 1
}

} // verus!
