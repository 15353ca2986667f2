//! Writing the two lists and reading the lines back gives the lists again:
//! the law, and the function that writes the lists only where it holds.

use vstd::prelude::*;
use crate::activity::{lemma_count_none, lemma_same_shape, same_shape, with_count};
use crate::codec::{
    closes_once, done_line, lemma_done_line_reads_back, lemma_indented, lemma_todo_line_reads_back,
    separator, spaces, stamp_closes_once, todo_line, ParseError,
};
use crate::engine::{AppView, Mode};
use crate::forest::{children_listed, count_ok, kid_flags, nested, par, well_formed};
use crate::item::ItemView;
use crate::list::{depth, List, ListView};
use crate::stored::{
    attach_to, climb, lemma_depth_kept, lemma_placed, load_line, load_lines, loaded, placed,
    recount_at, recounted, recounted_from, save, stamp_of, storable, stored, texts, Loaded,
};
use crate::text::{is_trimmed, lemma_trimmed_of_trimmed, text_is_trimmed};
use crate::timestamp::{parse_stamp, parsed_stamp, render_stamp, Timestamp, DATE_FMT};

verus! {

/// Two strictly ascending sequences that hold the same numbers are equal.
pub proof fn lemma_ascending_same(a: Seq<int>, b: Seq<int>)
    requires
        forall|i: int, j: int| 0 <= i < j < a.len() ==> a[i] < a[j],
        forall|i: int, j: int| 0 <= i < j < b.len() ==> b[i] < b[j],
        forall|x: int| a.contains(x) <==> b.contains(x),
    ensures
        a == b,
    decreases a.len(),
{
    if a.len() == 0 {
        if b.len() > 0 {
            assert(b.contains(b[0]));
        }
        assert(a =~= b);
    } else {
        let top = a.last();
        assert(a.contains(top));
        assert(b.contains(top));
        assert(b.contains(b.last()));
        assert(a.contains(b.last()));
        let ia = choose|i: int| 0 <= i < a.len() && a[i] == b.last();
        let ib = choose|i: int| 0 <= i < b.len() && b[i] == top;
        assert(b.last() <= top) by {
            if ia < a.len() - 1 {
                assert(a[ia] < a[a.len() - 1]);
            }
        }
        assert(top <= b.last()) by {
            if ib < b.len() - 1 {
                assert(b[ib] < b[b.len() - 1]);
            }
        }
        let a0 = a.drop_last();
        let b0 = b.drop_last();
        assert forall|x: int| a0.contains(x) <==> b0.contains(x) by {
            if a0.contains(x) {
                let i = choose|i: int| 0 <= i < a0.len() && a0[i] == x;
                assert(a[i] == x && a[i] < a[a.len() - 1]);
                assert(a.contains(x));
                let j = choose|j: int| 0 <= j < b.len() && b[j] == x;
                assert(j < b.len() - 1);
                assert(b0[j] == x);
            }
            if b0.contains(x) {
                let i = choose|i: int| 0 <= i < b0.len() && b0[i] == x;
                assert(b[i] == x && b[i] < b[b.len() - 1]);
                assert(b.contains(x));
                let j = choose|j: int| 0 <= j < a.len() && a[j] == x;
                assert(j < a.len() - 1);
                assert(a0[j] == x);
            }
        }
        lemma_ascending_same(a0, b0);
        assert(a =~= a0.push(top));
        assert(b =~= b0.push(b.last()));
    }
}

/// In a list whose subtasks are listed in order, the parent links say what
/// every list of subtasks is.
pub proof fn lemma_parents_fix_children(a: Seq<ItemView>, b: Seq<ItemView>)
    requires
        nested(a),
        children_listed(a),
        nested(b),
        children_listed(b),
        a.len() == b.len(),
        forall|i: int| 0 <= i < a.len() ==> (#[trigger] a[i]).parent == b[i].parent,
    ensures
        forall|i: int| 0 <= i < a.len() ==> (#[trigger] a[i]).children == b[i].children,
{
    assert forall|i: int| 0 <= i < a.len() implies (#[trigger] a[i]).children == b[i].children by {
        let ka = a[i].children;
        let kb = b[i].children;
        assert forall|x: int| ka.contains(x) <==> kb.contains(x) by {
            if ka.contains(x) {
                let k = choose|k: int| 0 <= k < ka.len() && ka[k] == x;
                assert(i < ka[k] < a.len() && par(a, ka[k]) == i);
                assert(a[x].parent == b[x].parent);
                assert(par(b, x) == i);
                assert(b[par(b, x)].children.contains(x));
            }
            if kb.contains(x) {
                let k = choose|k: int| 0 <= k < kb.len() && kb[k] == x;
                assert(i < kb[k] < b.len() && par(b, kb[k]) == i);
                assert(a[x].parent == b[x].parent);
                assert(par(a, x) == i);
                assert(a[par(a, x)].children.contains(x));
            }
        }
        lemma_ascending_same(ka, kb);
    }
}

/// Going up from an item that stands between a parent and its subtask leads
/// to that parent.
pub proof fn lemma_climb_to_parent(items: Seq<ItemView>, k: int, i: int)
    requires
        nested(items),
        0 <= i < k < items.len(),
        par(items, k) >= 0,
        par(items, k) <= i,
    ensures
        depth(items, i) >= depth(items, par(items, k)),
        climb(items, i, (depth(items, i) - depth(items, par(items, k))) as nat) == par(items, k),
    decreases i,
{
    let p = par(items, k);
    if i > p {
        let q = par(items, i);
        assert(-1 <= par(items, i) < i);
        assert(par(items, k) < i ==> par(items, k) <= par(items, i));
        lemma_climb_to_parent(items, k, q);
    }
}

/// Going up follows the parent links below the start only.
pub proof fn lemma_climb_kept(a: Seq<ItemView>, b: Seq<ItemView>, i: int, steps: nat)
    requires
        nested(a),
        0 <= i < a.len() <= b.len(),
        steps <= depth(a, i),
        forall|j: int| 0 <= j < a.len() ==> par(a, j) == par(b, j),
    ensures
        climb(a, i, steps) == climb(b, i, steps),
    decreases steps,
{
    if steps > 0 {
        assert(-1 <= par(a, i) < i);
        lemma_climb_kept(a, b, par(a, i), (steps - 1) as nat);
    }
}

/// The first `k` items put one after the other at the end of an empty list,
/// each below its parent, with the dates and counts given.
pub open spec fn built(items: Seq<ItemView>, dates: Seq<Timestamp>, acts: Seq<nat>, k: int) -> Seq<
    ItemView,
>
    decreases k,
{
    if k <= 0 {
        Seq::empty()
    } else {
        placed(
            built(items, dates, acts, k - 1),
            items[k - 1].parent,
            items[k - 1].text,
            dates[k - 1],
            acts[k - 1],
        )
    }
}

/// What building the first `k` items gives: the items with their parent
/// links and texts, in a list whose links are in order; and the next item
/// hangs where its depth says.
pub proof fn lemma_built(items: Seq<ItemView>, dates: Seq<Timestamp>, acts: Seq<nat>, k: int)
    requires
        nested(items),
        0 <= k <= items.len(),
        dates.len() == items.len(),
        acts.len() == items.len(),
    ensures
        built(items, dates, acts, k).len() == k,
        nested(built(items, dates, acts, k)),
        children_listed(built(items, dates, acts, k)),
        forall|i: int|
            0 <= i < k ==> {
                let b = #[trigger] built(items, dates, acts, k)[i];
                &&& b.parent == items[i].parent
                &&& b.text == items[i].text
                &&& b.date == dates[i]
                &&& b.act_cnt == acts[i]
            },
        k < items.len() ==> attach_to(built(items, dates, acts, k), depth(items, k)) == Some(
            items[k].parent,
        ),
    decreases k,
{
    let b = built(items, dates, acts, k);
    if k > 0 {
        lemma_built(items, dates, acts, k - 1);
        let a = built(items, dates, acts, k - 1);
        lemma_placed(a, depth(items, k - 1), items[k - 1].text, dates[k - 1], acts[k - 1]);
        assert(b == placed(a, items[k - 1].parent, items[k - 1].text, dates[k - 1], acts[k - 1]));
        assert(-1 <= par(items, k - 1) < k - 1);
        assert forall|i: int| 0 <= i < k implies {
            let v = #[trigger] b[i];
            &&& v.parent == items[i].parent
            &&& v.text == items[i].text
            &&& v.date == dates[i]
            &&& v.act_cnt == acts[i]
        } by {
            if i < k - 1 {
                assert(a[i].parent == items[i].parent);
            }
        }
    }
    if k < items.len() {
        assert(-1 <= par(items, k) < k);
        assert forall|j: int| 0 <= j < k implies par(b, j) == par(items, j) by {
            assert(b[j].parent == items[j].parent);
        }
        let d = depth(items, k);
        if par(items, k) >= 0 {
            let p = par(items, k);
            lemma_climb_to_parent(items, k, k - 1);
            lemma_depth_kept(b, items, k - 1);
            lemma_depth_kept(b, items, p);
            lemma_climb_kept(b, items, k - 1, (depth(items, k - 1) - depth(items, p)) as nat);
            assert(d == depth(items, p) + 1);
        } else {
            assert(d == 0);
        }
    }
}

/// A list built from all items of a well-formed list has the subtask lists
/// of that list.
pub proof fn lemma_built_whole(items: Seq<ItemView>, dates: Seq<Timestamp>, acts: Seq<nat>)
    requires
        nested(items),
        children_listed(items),
        dates.len() == items.len(),
        acts.len() == items.len(),
    ensures
        built(items, dates, acts, items.len() as int) == Seq::new(
            items.len(),
            |i: int| ItemView { date: dates[i], act_cnt: acts[i], ..items[i] },
        ),
{
    let n = items.len() as int;
    let b = built(items, dates, acts, n);
    lemma_built(items, dates, acts, n);
    assert forall|i: int| 0 <= i < n implies (#[trigger] b[i]).parent == items[i].parent by {}
    lemma_parents_fix_children(b, items);
    let want = Seq::new(items.len(), |i: int| ItemView { date: dates[i], act_cnt: acts[i], ..items[i] });
    assert forall|i: int| 0 <= i < n implies b[i] == want[i] by {
        assert(b[i].parent == items[i].parent);
        assert(b[i].children == items[i].children);
    }
    assert(b =~= want);
}

/// The counts 1 for an active item and 0 for a complete one.
pub open spec fn stars(items: Seq<ItemView>) -> Seq<nat> {
    Seq::new(
        items.len(),
        |i: int|
            if items[i].act_cnt > 0 {
                1nat
            } else {
                0nat
            },
    )
}

/// Setting the counts right gives back the counts of a well-formed list from
/// no more than which of its items are active.
pub proof fn lemma_recount_restores(items: Seq<ItemView>, s: Seq<ItemView>, i: int)
    requires
        well_formed(items),
        s.len() == items.len(),
        0 <= i <= items.len(),
        forall|j: int|
            0 <= j < items.len() ==> (#[trigger] s[j]).parent == items[j].parent && s[j].children
                == items[j].children && s[j].text == items[j].text && s[j].act_cnt == stars(items)[j],
    ensures
        recounted_from(s, i).len() == items.len(),
        forall|j: int|
            0 <= j < items.len() ==> {
                let r = #[trigger] recounted_from(s, i)[j];
                &&& r.parent == items[j].parent
                &&& r.children == items[j].children
                &&& r.text == items[j].text
                &&& r.date == s[j].date
                &&& r.act_cnt == if j >= i {
                    items[j].act_cnt
                } else {
                    stars(items)[j]
                }
            },
    decreases items.len() - i,
{
    if i < items.len() {
        lemma_recount_restores(items, s, i + 1);
        let r = recounted_from(s, i + 1);
        let z = with_count(r, i, recount_at(r, i));
        assert(z == recounted_from(s, i));
        assert(r[i].children == items[i].children);
        let kids = items[i].children;
        assert forall|x: int| 0 <= x < kids.len() implies kid_flags(r, kids)[x] == kid_flags(
            items,
            kids,
        )[x] by {
            let c = kids[x];
            assert(i < c < items.len() && par(items, c) == i);
            assert(r[c].act_cnt == items[c].act_cnt);
        }
        assert(kid_flags(r, kids) =~= kid_flags(items, kids));
        assert(count_ok(items, i));
        assert(r[i].act_cnt == stars(items)[i]);
        assert forall|j: int| 0 <= j < items.len() implies {
            let v = #[trigger] z[j];
            &&& v.parent == items[j].parent
            &&& v.children == items[j].children
            &&& v.text == items[j].text
            &&& v.date == s[j].date
            &&& v.act_cnt == if j >= i {
                items[j].act_cnt
            } else {
                stars(items)[j]
            }
        } by {
            assert(r[j].parent == items[j].parent);
        }
    }
}

/// Reading the line of an active item puts the item where it was.
pub proof fn lemma_todo_line_step(
    state: Loaded,
    parent: Option<int>,
    d: nat,
    active: bool,
    text: Seq<char>,
    now: Timestamp,
)
    requires
        !state.in_dones,
        attach_to(state.todos, d) == Some(parent),
        is_trimmed(text),
    ensures
        load_line(state, todo_line(d, active, text), now) == Ok::<Loaded, crate::codec::ParseErrorKind>(
            Loaded {
                todos: placed(
                    state.todos,
                    parent,
                    text,
                    now,
                    if active {
                        1
                    } else {
                        0
                    },
                ),
                ..state
            },
        ),
{
    let line = todo_line(d, active, text);
    let open = if active {
        crate::codec::todo_starred()
    } else {
        crate::codec::todo_plain()
    };
    assert(line =~= spaces(4 * d) + (open + text));
    assert((open + text)[0] == 'T');
    lemma_indented(d, open + text);
    lemma_todo_line_reads_back(d, active, text);
    lemma_trimmed_of_trimmed(text);
    assert(line != separator()) by {
        if d == 0 {
            assert(line[0] == 'T');
        } else {
            assert(line[0] == ' ');
        }
        assert(separator()[0] == '<');
    }
}

/// Reading the line of a completed item puts the item where it was, with
/// the date that its timestamp reads as.
pub proof fn lemma_done_line_step(
    state: Loaded,
    parent: Option<int>,
    d: nat,
    stamp: Seq<char>,
    text: Seq<char>,
    date: Timestamp,
    now: Timestamp,
)
    requires
        state.in_dones,
        attach_to(state.dones, d) == Some(parent),
        is_trimmed(text),
        closes_once(stamp),
        parsed_stamp(DATE_FMT@, stamp) == Some(date),
    ensures
        load_line(state, done_line(d, stamp, text), now) == Ok::<Loaded, crate::codec::ParseErrorKind>(
            Loaded { dones: placed(state.dones, parent, text, date, 0), ..state },
        ),
{
    let line = done_line(d, stamp, text);
    let rest = crate::codec::done_open() + stamp + crate::codec::close() + text;
    assert(line =~= spaces(4 * d) + rest);
    assert(rest[0] == 'D');
    lemma_indented(d, rest);
    lemma_done_line_reads_back(d, stamp, text);
    lemma_trimmed_of_trimmed(text);
    assert(line != separator()) by {
        if d == 0 {
            assert(line[0] == 'D');
        } else {
            assert(line[0] == ' ');
        }
        assert(separator()[0] == '<');
    }
}

/// The same date for every item.
pub open spec fn all_at(n: nat, now: Timestamp) -> Seq<Timestamp> {
    Seq::new(n, |i: int| now)
}

/// The dates that the written timestamps of the items read as.
pub open spec fn dates_read(items: Seq<ItemView>) -> Seq<Timestamp> {
    Seq::new(items.len(), |i: int| parsed_stamp(DATE_FMT@, stamp_of(items[i]).unwrap()).unwrap())
}

/// The count 0 for every item.
pub open spec fn zeros(n: nat) -> Seq<nat> {
    Seq::new(n, |i: int| 0nat)
}

/// Whether every text is free of white space at its ends.
pub open spec fn texts_trimmed(items: Seq<ItemView>) -> bool {
    forall|i: int| 0 <= i < items.len() ==> is_trimmed((#[trigger] items[i]).text)
}

/// Whether every timestamp is written in a form that reads back: it can be
/// written, `): ` does not stand in what is written, and what is written can
/// be read.
pub open spec fn stamps_read_back(items: Seq<ItemView>) -> bool {
    forall|i: int|
        0 <= i < items.len() ==> {
            let s = #[trigger] stamp_of(items[i]);
            s is Some && closes_once(s.unwrap()) && parsed_stamp(DATE_FMT@, s.unwrap()) is Some
        }
}

/// Reading the first `k` lines of the stored form, all of them lines of
/// active items, builds the first `k` active items.
pub proof fn lemma_todo_lines_load(todos: Seq<ItemView>, dones: Seq<ItemView>, now: Timestamp, k: int)
    requires
        nested(todos),
        texts_trimmed(todos),
        0 <= k <= todos.len(),
    ensures
        load_lines(stored(todos, dones).take(k), now) == Ok::<Loaded, ParseError>(
            Loaded {
                todos: built(todos, all_at(todos.len(), now), stars(todos), k),
                dones: Seq::empty(),
                in_dones: false,
            },
        ),
    decreases k,
{
    let all = stored(todos, dones);
    let dates = all_at(todos.len(), now);
    if k > 0 {
        lemma_todo_lines_load(todos, dones, now, k - 1);
        lemma_built(todos, dates, stars(todos), k - 1);
        let state = Loaded {
            todos: built(todos, dates, stars(todos), k - 1),
            dones: Seq::empty(),
            in_dones: false,
        };
        assert(all.take(k).drop_last() =~= all.take(k - 1));
        let item = todos[k - 1];
        assert(all.take(k).last() == todo_line(depth(todos, k - 1), item.act_cnt > 0, item.text));
        lemma_todo_line_step(
            state,
            item.parent,
            depth(todos, k - 1),
            item.act_cnt > 0,
            item.text,
            now,
        );
    } else {
        assert(all.take(0) =~= Seq::<Seq<char>>::empty());
    }
}

/// Reading the stored form up to the `j`-th line of a completed item builds
/// all active items and the first `j` completed ones.
pub proof fn lemma_done_lines_load(todos: Seq<ItemView>, dones: Seq<ItemView>, now: Timestamp, j: int)
    requires
        nested(todos),
        texts_trimmed(todos),
        nested(dones),
        texts_trimmed(dones),
        stamps_read_back(dones),
        0 <= j <= dones.len(),
    ensures
        load_lines(stored(todos, dones).take(todos.len() + 1 + j), now) == Ok::<Loaded, ParseError>(
            Loaded {
                todos: built(todos, all_at(todos.len(), now), stars(todos), todos.len() as int),
                dones: built(dones, dates_read(dones), zeros(dones.len()), j),
                in_dones: true,
            },
        ),
    decreases j,
{
    let all = stored(todos, dones);
    let n = todos.len() as int;
    let upto = n + 1 + j;
    assert(all.take(upto).drop_last() =~= all.take(upto - 1));
    if j > 0 {
        lemma_done_lines_load(todos, dones, now, j - 1);
        lemma_built(dones, dates_read(dones), zeros(dones.len()), j - 1);
        let state = Loaded {
            todos: built(todos, all_at(todos.len(), now), stars(todos), n),
            dones: built(dones, dates_read(dones), zeros(dones.len()), j - 1),
            in_dones: true,
        };
        let item = dones[j - 1];
        let stamp = stamp_of(item).unwrap();
        assert(all.take(upto).last() == done_line(depth(dones, j - 1), stamp, item.text));
        lemma_done_line_step(
            state,
            item.parent,
            depth(dones, j - 1),
            stamp,
            item.text,
            dates_read(dones)[j - 1],
            now,
        );
    } else {
        lemma_todo_lines_load(todos, dones, now, n);
        assert(all.take(upto).last() == separator());
    }
}

/// What reading the stored form of two lists at the time `now` gives where
/// it gives the lists back: the active items with the time of reading as
/// their date, the completed items with the date that their written
/// timestamp reads as, and counting zero.
pub open spec fn read_back(todos: Seq<ItemView>, dones: Seq<ItemView>, now: Timestamp) -> (
    Seq<ItemView>,
    Seq<ItemView>,
) {
    (
        Seq::new(todos.len(), |i: int| ItemView { date: now, ..todos[i] }),
        Seq::new(
            dones.len(),
            |i: int| ItemView { date: dates_read(dones)[i], act_cnt: 0, ..dones[i] },
        ),
    )
}

/// Whether the stored form of the two lists reads back: no text has white
/// space at its ends, and every timestamp of a completed item is written in
/// a form that reads back.
pub open spec fn readable(todos: Seq<ItemView>, dones: Seq<ItemView>) -> bool {
    texts_trimmed(todos) && texts_trimmed(dones) && stamps_read_back(dones)
}

/// Writing two well-formed lists and reading the lines back gives the same
/// items again: the same texts, the same nesting, the same counts in the
/// active list and none in the completed list. The date of an active item is
/// the time of reading; the date of a completed item is what its written
/// timestamp reads as. This holds of lists whose texts have no white space
/// at their ends and whose timestamps are written in a form that reads back.
pub proof fn lemma_stored_reads_back(todos: Seq<ItemView>, dones: Seq<ItemView>, now: Timestamp)
    requires
        well_formed(todos),
        well_formed(dones),
        texts_trimmed(todos),
        texts_trimmed(dones),
        stamps_read_back(dones),
    ensures
        loaded(stored(todos, dones), now) == Ok::<(Seq<ItemView>, Seq<ItemView>), ParseError>(
            read_back(todos, dones, now),
        ),
{
    let all = stored(todos, dones);
    let n = todos.len() as int;
    let m = dones.len() as int;
    lemma_done_lines_load(todos, dones, now, m);
    assert(all.take(n + 1 + m) =~= all);
    let bt = built(todos, all_at(todos.len(), now), stars(todos), n);
    let bd = built(dones, dates_read(dones), zeros(dones.len()), m);
    lemma_built_whole(todos, all_at(todos.len(), now), stars(todos));
    lemma_built_whole(dones, dates_read(dones), zeros(dones.len()));
    // The active list: its counts come back from its stars.
    lemma_recount_restores(todos, bt, 0);
    let want_t = Seq::new(todos.len(), |i: int| ItemView { date: now, ..todos[i] });
    assert(recounted(bt) =~= want_t);
    // The completed list: no item is active.
    let flat = Seq::new(dones.len(), |i: int| ItemView { act_cnt: 0, ..dones[i] });
    assert(same_shape(dones, flat));
    lemma_same_shape(dones, flat);
    assert forall|i: int| 0 <= i < flat.len() implies #[trigger] count_ok(flat, i) by {
        let flags = kid_flags(flat, flat[i].children);
        assert forall|x: int| 0 <= x < flags.len() implies !flags[x] by {
            let c = flat[i].children[x];
            assert(i < c < flat.len() && par(flat, c) == i);
        }
        lemma_count_none(flags);
    }
    lemma_recount_restores(flat, bd, 0);
    let want_d = Seq::new(
        dones.len(),
        |i: int| ItemView { date: dates_read(dones)[i], act_cnt: 0, ..dones[i] },
    );
    assert(recounted(bd) =~= want_d);
}

/// Writing a well-formed active list and reading the lines back gives the
/// same items again, with the time of reading as their date: the same texts,
/// the same parents and subtasks, the same depths and the same counts. This
/// holds of every list whose texts have no white space at their ends.
pub proof fn lemma_active_list_reads_back(todos: Seq<ItemView>, now: Timestamp)
    requires
        well_formed(todos),
        texts_trimmed(todos),
    ensures
        loaded(stored(todos, Seq::empty()), now) == Ok::<(Seq<ItemView>, Seq<ItemView>), ParseError>(
            read_back(todos, Seq::empty(), now),
        ),
        read_back(todos, Seq::empty(), now).0.len() == todos.len(),
        read_back(todos, Seq::empty(), now).1.len() == 0,
        forall|i: int|
            0 <= i < todos.len() ==> #[trigger] depth(read_back(todos, Seq::empty(), now).0, i)
                == depth(todos, i),
{
    let none = Seq::<ItemView>::empty();
    lemma_stored_reads_back(todos, none, now);
    let back = read_back(todos, none, now).0;
    assert forall|i: int| 0 <= i < todos.len() implies #[trigger] depth(back, i) == depth(todos, i) by {
        assert forall|j: int| 0 <= j < todos.len() implies par(todos, j) == par(back, j) by {}
        lemma_depth_kept(todos, back, i);
    }
}

/// A state that parses the lines written for two well-formed lists that are
/// readable holds those lists afterwards, each with its cursor on the first
/// item and without snapshots; the focus and the visibility of subtasks stay
/// as they were.
pub proof fn lemma_saved_lists_parse_back(
    app: AppView,
    file_path: Seq<char>,
    lines: &Vec<String>,
    todos: Seq<ItemView>,
    dones: Seq<ItemView>,
    now: Timestamp,
)
    requires
        well_formed(todos),
        well_formed(dones),
        readable(todos, dones),
        texts(lines@) == stored(todos, dones),
    ensures
        app.parse(file_path, Some(lines), now).1 is Ok,
        app.parse(file_path, Some(lines), now).0.todos == (ListView {
            items: read_back(todos, dones, now).0,
            cursor: 0,
            history: Seq::empty(),
        }),
        app.parse(file_path, Some(lines), now).0.dones == (ListView {
            items: read_back(todos, dones, now).1,
            cursor: 0,
            history: Seq::empty(),
        }),
        app.parse(file_path, Some(lines), now).0.panel == app.panel,
        app.parse(file_path, Some(lines), now).0.hide_subs == app.hide_subs,
        app.parse(file_path, Some(lines), now).0.mode == Mode::Normal,
{
    lemma_stored_reads_back(todos, dones, now);
}

/// Whether the text of every item has no white space at its ends.
fn all_trimmed(list: &List) -> (b: bool)
    ensures
        b == texts_trimmed(list@.items),
{
    let mut i: usize = 0;
    while i < list.len()
        invariant
            i <= list@.items.len(),
            forall|t: int| 0 <= t < i ==> is_trimmed((#[trigger] list@.items[t]).text),
        decreases list@.items.len() - i,
    {
        match list.get(i) {
            Some(item) => {
                if !text_is_trimmed(item.get_text().as_str()) {
                    return false;
                }
            },
            None => {},
        }
        i += 1;
    }
    true
}

/// Whether the timestamp of every item is written in a form that reads
/// back: each is written, searched for `): ` and read again.
fn all_stamps_read_back(list: &List) -> (b: bool)
    ensures
        b == stamps_read_back(list@.items),
{
    let mut i: usize = 0;
    while i < list.len()
        invariant
            i <= list@.items.len(),
            forall|t: int|
                0 <= t < i ==> {
                    let s = #[trigger] stamp_of(list@.items[t]);
                    s is Some && closes_once(s.unwrap()) && parsed_stamp(DATE_FMT@, s.unwrap()) is Some
                },
        decreases list@.items.len() - i,
    {
        match list.get(i) {
            Some(item) => {
                let date = item.get_timestamp();
                match render_stamp(&date, DATE_FMT) {
                    Some(stamp) => {
                        if !stamp_closes_once(stamp.as_str()) {
                            assert(!closes_once(stamp_of(list@.items[i as int]).unwrap()));
                            return false;
                        }
                        if parse_stamp(stamp.as_str(), DATE_FMT).is_none() {
                            assert(parsed_stamp(DATE_FMT@, stamp_of(list@.items[i as int]).unwrap()) is None);
                            return false;
                        }
                    },
                    None => {
                        assert(stamp_of(list@.items[i as int]) is None);
                        return false;
                    },
                }
            },
            None => {},
        }
        i += 1;
    }
    true
}

/// Writes the two lists in their stored form, one line in each string, if
/// that form reads back as the same lists. Every text is looked at, every
/// timestamp written and read again; where one of them does not come back,
/// or a list cannot be stored at all, the result is `None`. The lines that
/// are returned give, read at any time, the items that were written: the
/// same texts, parents, subtasks and counts in the active list, and in the
/// completed list the same texts, parents and subtasks with counts of zero.
pub fn save_readable(todos: &List, dones: &List) -> (r: Option<Vec<String>>)
    requires
        todos.wf(),
        dones.wf(),
    ensures
        match r {
            Some(lines) => {
                &&& texts(lines@) == stored(todos@.items, dones@.items)
                &&& storable(todos@.items, false) && storable(dones@.items, true)
                &&& readable(todos@.items, dones@.items)
                &&& forall|now: Timestamp| #[trigger]
                    loaded(texts(lines@), now) == Ok::<(Seq<ItemView>, Seq<ItemView>), ParseError>(
                        read_back(todos@.items, dones@.items, now),
                    )
            },
            None => !(storable(todos@.items, false) && storable(dones@.items, true) && readable(
                todos@.items,
                dones@.items,
            )),
        },
{
    if !all_trimmed(todos) || !all_trimmed(dones) || !all_stamps_read_back(dones) {
        return None;
    }
    match save(todos, dones) {
        Some(lines) => {
            proof {
                assert forall|now: Timestamp| #[trigger]
                    loaded(texts(lines@), now) == Ok::<(Seq<ItemView>, Seq<ItemView>), ParseError>(
                        read_back(todos@.items, dones@.items, now),
                    ) by {
                    lemma_stored_reads_back(todos@.items, dones@.items, now);
                }
            }
            Some(lines)
        },
        None => None,
    }
}

} // verus!
