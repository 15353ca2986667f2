//! Activity counts: how completing and reopening an item shows in the counts
//! of the items above it.

use vstd::prelude::*;
use crate::forest::{
    active_kids, children_listed, count_ok, count_true, counted, kid_flags, nested, par,
    well_formed,
};
use crate::item::ItemView;
use crate::timestamp::Timestamp;

verus! {

/// One more flag adds one to the count if it is set.
pub proof fn lemma_count_push(flags: Seq<bool>, b: bool)
    ensures
        count_true(flags.push(b)) == count_true(flags) + if b {
            1nat
        } else {
            0nat
        },
{
    assert(flags.push(b).drop_last() =~= flags);
}

/// Changing one flag changes the count by that flag.
pub proof fn lemma_count_update(flags: Seq<bool>, i: int, b: bool)
    requires
        0 <= i < flags.len(),
    ensures
        count_true(flags.update(i, b)) + (if flags[i] {
            1nat
        } else {
            0nat
        }) == count_true(flags) + if b {
            1nat
        } else {
            0nat
        },
    decreases flags.len(),
{
    if i == flags.len() - 1 {
        assert(flags.update(i, b).drop_last() =~= flags.drop_last());
    } else {
        lemma_count_update(flags.drop_last(), i, b);
        assert(flags.update(i, b).drop_last() =~= flags.drop_last().update(i, b));
    }
}

/// Taking out one flag takes it off the count.
pub proof fn lemma_count_remove(flags: Seq<bool>, i: int)
    requires
        0 <= i < flags.len(),
    ensures
        count_true(flags.remove(i)) + (if flags[i] {
            1nat
        } else {
            0nat
        }) == count_true(flags),
    decreases flags.len(),
{
    if i == flags.len() - 1 {
        assert(flags.remove(i) =~= flags.drop_last());
    } else {
        lemma_count_remove(flags.drop_last(), i);
        assert(flags.remove(i).drop_last() =~= flags.drop_last().remove(i));
        assert(flags.remove(i).last() == flags.last());
    }
}

/// The count is zero exactly if no flag is set.
pub proof fn lemma_count_none(flags: Seq<bool>)
    ensures
        count_true(flags) == 0 <==> forall|i: int| 0 <= i < flags.len() ==> !flags[i],
    decreases flags.len(),
{
    if flags.len() > 0 {
        lemma_count_none(flags.drop_last());
        if count_true(flags) == 0 {
            assert forall|i: int| 0 <= i < flags.len() implies !flags[i] by {
                if i < flags.len() - 1 {
                    assert(flags.drop_last()[i] == flags[i]);
                }
            }
        } else {
            if forall|i: int| 0 <= i < flags.len() ==> !flags[i] {
                assert forall|i: int| 0 <= i < flags.drop_last().len() implies !flags.drop_last()[i] by {
                    assert(flags.drop_last()[i] == flags[i]);
                }
                assert(!flags.last());
            }
        }
    }
}

/// The items with the count of item `i` set to `act`.
pub open spec fn with_count(items: Seq<ItemView>, i: int, act: nat) -> Seq<ItemView> {
    items.update(i, ItemView { act_cnt: act, ..items[i] })
}

/// The items after item `p` gained an active subtask. An item that was active
/// counts one more. One that was complete becomes active with a count of two,
/// and then its own parent has gained an active subtask.
pub open spec fn activated(items: Seq<ItemView>, p: int) -> Seq<ItemView>
    decreases p,
{
    if 0 <= p < items.len() {
        if items[p].act_cnt >= 1 {
            with_count(items, p, items[p].act_cnt + 1)
        } else if 0 <= par(items, p) < p {
            activated(with_count(items, p, 2), par(items, p))
        } else {
            with_count(items, p, 2)
        }
    } else {
        items
    }
}

/// The items after item `c` was marked at the time `now`. An active item
/// without active subtasks becomes complete, is stamped with `now`, and its
/// parent counts one less. A complete item becomes active, and its parent has
/// gained an active subtask.
pub open spec fn marked(items: Seq<ItemView>, c: int, now: Timestamp) -> Seq<ItemView> {
    let p = par(items, c);
    if items[c].act_cnt == 1 {
        let done = items.update(c, ItemView { act_cnt: 0, date: now, ..items[c] });
        if p >= 0 {
            with_count(done, p, (items[p].act_cnt - 1) as nat)
        } else {
            done
        }
    } else if items[c].act_cnt == 0 {
        let open = with_count(items, c, 1);
        if p >= 0 {
            activated(open, p)
        } else {
            open
        }
    } else {
        items
    }
}

/// Whether two lists have the same items up to their activity counts.
pub open spec fn same_shape(a: Seq<ItemView>, b: Seq<ItemView>) -> bool {
    &&& a.len() == b.len()
    &&& forall|i: int|
        0 <= i < a.len() ==> (#[trigger] a[i]).parent == b[i].parent && a[i].children == b[i].children
}

/// All counts are right but that of item `p`, which has one active subtask
/// more than it counts.
pub open spec fn one_short(items: Seq<ItemView>, p: int) -> bool {
    &&& 0 <= p < items.len()
    &&& forall|i: int| 0 <= i < items.len() && i != p ==> #[trigger] count_ok(items, i)
    &&& if items[p].act_cnt > 0 {
        items[p].act_cnt == active_kids(items, items[p].children)
    } else {
        active_kids(items, items[p].children) == 1
    }
}

/// Counts have no part in whether parent links and subtask lists are in order.
pub proof fn lemma_same_shape(a: Seq<ItemView>, b: Seq<ItemView>)
    requires
        same_shape(a, b),
        nested(a),
        children_listed(a),
    ensures
        nested(b),
        children_listed(b),
{
    assert forall|i: int| 0 <= i < b.len() implies par(b, i) == par(a, i) by {
        assert(a[i].parent == b[i].parent);
    }
    assert forall|i: int, j: int|
        0 <= i < j < b.len() && #[trigger] par(b, j) < i implies par(b, j) <= #[trigger] par(b, i) by {
        assert(par(a, j) == par(b, j));
        assert(par(a, i) == par(b, i));
    }
    assert forall|i: int, k: int| 0 <= i < b.len() && 0 <= k < b[i].children.len() implies {
        let c = #[trigger] b[i].children[k];
        i < c < b.len() && par(b, c) == i
    } by {
        assert(a[i].children == b[i].children);
        let c = a[i].children[k];
        assert(i < c < a.len() && par(a, c) == i);
    }
    assert forall|i: int, k: int, l: int|
        0 <= i < b.len() && 0 <= k < l < b[i].children.len() implies #[trigger] b[i].children[k]
        < #[trigger] b[i].children[l] by {
        assert(a[i].children == b[i].children);
        assert(a[i].children[k] < a[i].children[l]);
    }
    assert forall|j: int| 0 <= j < b.len() && par(b, j) >= 0 implies #[trigger] b[par(
        b,
        j,
    )].children.contains(j) by {
        assert(par(a, j) == par(b, j));
        assert(a[par(a, j)].children.contains(j));
        assert(a[par(a, j)].children == b[par(b, j)].children);
    }
}

/// Whether two lists have the same items up to their texts and dates.
pub open spec fn same_links(a: Seq<ItemView>, b: Seq<ItemView>) -> bool {
    &&& same_shape(a, b)
    &&& forall|i: int| 0 <= i < a.len() ==> (#[trigger] a[i]).act_cnt == b[i].act_cnt
}

/// Texts and dates have no part in whether a list is well formed.
pub proof fn lemma_same_links(a: Seq<ItemView>, b: Seq<ItemView>)
    requires
        same_links(a, b),
        well_formed(a),
    ensures
        well_formed(b),
{
    lemma_same_shape(a, b);
    assert forall|i: int| 0 <= i < b.len() implies #[trigger] count_ok(b, i) by {
        assert(a[i].act_cnt == b[i].act_cnt);
        assert forall|c: int| 0 <= c < a.len() && par(a, c) == i implies ((#[trigger] a[c]).act_cnt > 0
            <==> b[c].act_cnt > 0) by {}
        lemma_flags_kept(a, b, i);
        assert(count_ok(a, i));
    }
}

/// The flags of the subtasks of item `i` do not change where no subtask of
/// `i` changes between active and complete.
pub proof fn lemma_flags_kept(a: Seq<ItemView>, b: Seq<ItemView>, i: int)
    requires
        same_shape(a, b),
        children_listed(a),
        0 <= i < a.len(),
        forall|c: int|
            0 <= c < a.len() && par(a, c) == i ==> ((#[trigger] a[c]).act_cnt > 0 <==> b[c].act_cnt > 0),
    ensures
        active_kids(b, b[i].children) == active_kids(a, a[i].children),
{
    assert(a[i].children == b[i].children);
    assert forall|k: int| 0 <= k < a[i].children.len() implies kid_flags(a, a[i].children)[k]
        == kid_flags(b, b[i].children)[k] by {
        let c = a[i].children[k];
        assert(i < c < a.len() && par(a, c) == i);
        assert(a[c].act_cnt > 0 <==> b[c].act_cnt > 0);
    }
    assert(kid_flags(a, a[i].children) =~= kid_flags(b, b[i].children));
}

/// The count of active subtasks of the parent of `c` goes up by one when `c`
/// turns active, and down by one when it turns complete.
pub proof fn lemma_flag_flipped(a: Seq<ItemView>, b: Seq<ItemView>, c: int)
    requires
        same_shape(a, b),
        nested(a),
        children_listed(a),
        0 <= c < a.len(),
        par(a, c) >= 0,
        forall|x: int| 0 <= x < a.len() && x != c ==> ((#[trigger] a[x]).act_cnt > 0 <==> b[x].act_cnt > 0),
    ensures
        active_kids(b, b[par(a, c)].children) + (if a[c].act_cnt > 0 {
            1nat
        } else {
            0nat
        }) == active_kids(a, a[par(a, c)].children) + (if b[c].act_cnt > 0 {
            1nat
        } else {
            0nat
        }),
{
    let p = par(a, c);
    assert(-1 <= par(a, c) < c);
    assert(a[p].children == b[p].children);
    assert(a[p].children.contains(c));
    let k = choose|k: int| 0 <= k < a[p].children.len() && a[p].children[k] == c;
    let fa = kid_flags(a, a[p].children);
    let fb = kid_flags(b, b[p].children);
    assert forall|x: int| 0 <= x < fa.len() implies fb[x] == fa.update(k, b[c].act_cnt > 0)[x] by {
        let d = a[p].children[x];
        assert(p < d < a.len() && par(a, d) == p);
        if x != k {
            if x < k {
                assert(a[p].children[x] < a[p].children[k]);
            } else {
                assert(a[p].children[k] < a[p].children[x]);
            }
            assert(a[d].act_cnt > 0 <==> b[d].act_cnt > 0);
        }
    }
    assert(fb =~= fa.update(k, b[c].act_cnt > 0));
    lemma_count_update(fa, k, b[c].act_cnt > 0);
}

/// The parent of an active item counts two at least.
pub proof fn lemma_parent_of_active(items: Seq<ItemView>, c: int)
    requires
        well_formed(items),
        0 <= c < items.len(),
        par(items, c) >= 0,
        items[c].act_cnt > 0,
    ensures
        items[par(items, c)].act_cnt >= 2,
{
    let p = par(items, c);
    assert(-1 <= par(items, c) < c);
    assert(items[p].children.contains(c));
    let k = choose|k: int| 0 <= k < items[p].children.len() && items[p].children[k] == c;
    let flags = kid_flags(items, items[p].children);
    assert(flags[k]);
    lemma_count_none(flags);
    assert(count_ok(items, p));
}

/// Where a complete item `p` is one short and has a parent, counting two at
/// `p` leaves its parent one short.
pub proof fn lemma_activation_step(items: Seq<ItemView>, p: int)
    requires
        nested(items),
        children_listed(items),
        one_short(items, p),
        items[p].act_cnt == 0,
    ensures
        same_shape(items, with_count(items, p, 2)),
        nested(with_count(items, p, 2)),
        children_listed(with_count(items, p, 2)),
        par(items, p) >= 0 ==> one_short(with_count(items, p, 2), par(items, p)),
        par(items, p) < 0 ==> counted(with_count(items, p, 2)),
{
    let q = par(items, p);
    assert(-1 <= par(items, p) < p);
    let r = with_count(items, p, 2);
    lemma_same_shape(items, r);
    assert forall|i: int| 0 <= i < r.len() && i != q implies #[trigger] count_ok(r, i) by {
        assert forall|c: int| 0 <= c < items.len() && par(items, c) == i implies ((
        #[trigger] items[c]).act_cnt > 0 <==> r[c].act_cnt > 0) by {}
        lemma_flags_kept(items, r, i);
        if i != p {
            assert(count_ok(items, i));
        }
    }
    if 0 <= q {
        lemma_flag_flipped(items, r, p);
        assert(count_ok(items, q));
    }
}

/// Where an active item `p` is one short, counting one more at `p` sets the
/// list right.
pub proof fn lemma_activation_end(items: Seq<ItemView>, p: int)
    requires
        nested(items),
        children_listed(items),
        one_short(items, p),
        items[p].act_cnt >= 1,
    ensures
        same_shape(items, with_count(items, p, items[p].act_cnt + 1)),
        well_formed(with_count(items, p, items[p].act_cnt + 1)),
{
    let r = with_count(items, p, items[p].act_cnt + 1);
    lemma_same_shape(items, r);
    assert forall|i: int| 0 <= i < r.len() implies #[trigger] count_ok(r, i) by {
        lemma_flags_kept(items, r, i);
        if i != p {
            assert(count_ok(items, i));
        }
    }
}

/// Letting item `p` gain an active subtask sets right a list in which `p`
/// was one short, and changes nothing but counts.
pub proof fn lemma_activated(items: Seq<ItemView>, p: int)
    requires
        nested(items),
        children_listed(items),
        one_short(items, p),
    ensures
        same_shape(items, activated(items, p)),
        forall|i: int|
            0 <= i < items.len() ==> (#[trigger] activated(items, p)[i]).text == items[i].text
                && activated(items, p)[i].date == items[i].date,
        well_formed(activated(items, p)),
    decreases p,
{
    let q = par(items, p);
    assert(-1 <= par(items, p) < p);
    if items[p].act_cnt >= 1 {
        lemma_activation_end(items, p);
    } else {
        let r = with_count(items, p, 2);
        lemma_activation_step(items, p);
        if 0 <= q {
            lemma_activated(r, q);
            let z = activated(r, q);
            assert(z == activated(items, p));
            assert forall|i: int| 0 <= i < items.len() implies (#[trigger] z[i]).parent
                == items[i].parent && z[i].children == items[i].children && z[i].text
                == items[i].text && z[i].date == items[i].date by {
                assert(r[i].parent == z[i].parent);
            }
        }
    }
}

/// Marking an item that has no active subtasks keeps the list well formed and
/// changes nothing but counts and the date of the marked item.
pub proof fn lemma_marked(items: Seq<ItemView>, c: int, now: Timestamp)
    requires
        well_formed(items),
        0 <= c < items.len(),
        items[c].act_cnt <= 1,
    ensures
        same_shape(items, marked(items, c, now)),
        well_formed(marked(items, c, now)),
{
    let p = par(items, c);
    assert(-1 <= par(items, c) < c);
    assert(count_ok(items, c));
    if items[c].act_cnt == 1 {
        let done = items.update(c, ItemView { act_cnt: 0, date: now, ..items[c] });
        lemma_same_shape(items, done);
        if p >= 0 {
            let r = with_count(done, p, (items[p].act_cnt - 1) as nat);
            lemma_same_shape(items, r);
            lemma_parent_of_active(items, c);
            lemma_flag_flipped(items, r, c);
            assert(count_ok(items, p));
                        assert forall|i: int| 0 <= i < r.len() implies #[trigger] count_ok(r, i) by {
                if i != p {
                    assert forall|x: int| 0 <= x < items.len() && par(items, x) == i implies ((
                    #[trigger] items[x]).act_cnt > 0 <==> r[x].act_cnt > 0) by {
                        if x == p {
                            assert(items[p].act_cnt >= 2);
                        }
                    }
                    lemma_flags_kept(items, r, i);
                    assert(count_ok(items, i));
                }
            }
        } else {
            assert forall|i: int| 0 <= i < done.len() implies #[trigger] count_ok(done, i) by {
                lemma_flags_kept(items, done, i);
                assert(count_ok(items, i));
            }
        }
    } else {
        let open = with_count(items, c, 1);
        lemma_same_shape(items, open);
        if p >= 0 {
            lemma_flag_flipped(items, open, c);
            assert(count_ok(items, p));
            assert forall|i: int| 0 <= i < open.len() && i != p implies #[trigger] count_ok(
                open,
                i,
            ) by {
                lemma_flags_kept(items, open, i);
                assert(count_ok(items, i));
            }
            assert(one_short(open, p));
            lemma_activated(open, p);
            let z = activated(open, p);
            assert forall|i: int| 0 <= i < items.len() implies (#[trigger] items[i]).parent
                == z[i].parent && items[i].children == z[i].children by {
                assert(open[i].parent == z[i].parent);
            }
        } else {
            assert forall|i: int| 0 <= i < open.len() implies #[trigger] count_ok(open, i) by {
                lemma_flags_kept(items, open, i);
                assert(count_ok(items, i));
            }
        }
    }
}

} // verus!
