//! The shape of a list: a forest laid out in pre-order, each item linked to its
//! parent and its children by their positions.

use vstd::prelude::*;
use crate::item::{Item, ItemView};

verus! {

/// The views of the items of a vector.
pub open spec fn views(v: Seq<Item>) -> Seq<ItemView> {
    Seq::new(v.len(), |i: int| v[i]@)
}

/// The position of the parent of item `i`, or -1 for a root.
pub open spec fn par(items: Seq<ItemView>, i: int) -> int {
    match items[i].parent {
        Some(p) => p,
        None => -1,
    }
}

/// Every parent stands before its child, and whatever stands between the two
/// lies below that parent too: the items are a forest in pre-order.
pub open spec fn nested(items: Seq<ItemView>) -> bool {
    &&& forall|i: int|
        0 <= i < items.len() ==> -1 <= #[trigger] par(items, i) < i && (items[i].parent is Some
            ==> par(items, i) >= 0)
    &&& forall|i: int, j: int|
        0 <= i < j < items.len() && #[trigger] par(items, j) < i ==> par(items, j) <= #[trigger] par(
            items,
            i,
        )
}

/// Every item lists its direct subtasks, all of them, in ascending order.
pub open spec fn children_listed(items: Seq<ItemView>) -> bool {
    &&& forall|i: int, k: int|
        0 <= i < items.len() && 0 <= k < items[i].children.len() ==> {
            let c = #[trigger] items[i].children[k];
            i < c < items.len() && par(items, c) == i
        }
    &&& forall|i: int, k: int, l: int|
        0 <= i < items.len() && 0 <= k < l < items[i].children.len() ==> #[trigger] items[i].children[k]
            < #[trigger] items[i].children[l]
    &&& forall|j: int|
        0 <= j < items.len() && par(items, j) >= 0 ==> #[trigger] items[par(items, j)].children.contains(j)
}

/// The number of `true` entries.
pub open spec fn count_true(flags: Seq<bool>) -> nat
    decreases flags.len(),
{
    if flags.len() == 0 {
        0
    } else {
        count_true(flags.drop_last()) + if flags.last() {
            1nat
        } else {
            0nat
        }
    }
}

/// For each of the positions `kids`, whether the item there is active.
pub open spec fn kid_flags(items: Seq<ItemView>, kids: Seq<int>) -> Seq<bool> {
    Seq::new(kids.len(), |k: int| items[kids[k]].act_cnt > 0)
}

/// How many of the items at the positions `kids` are active.
pub open spec fn active_kids(items: Seq<ItemView>, kids: Seq<int>) -> nat {
    count_true(kid_flags(items, kids))
}

/// Item `i` is complete and so are its direct subtasks, or it is active and
/// its count is one more than the number of its active direct subtasks.
pub open spec fn count_ok(items: Seq<ItemView>, i: int) -> bool {
    items[i].act_cnt == (if items[i].act_cnt > 0 {
        1 + active_kids(items, items[i].children)
    } else {
        active_kids(items, items[i].children)
    })
}

/// Every activity count is what `count_ok` asks for.
pub open spec fn counted(items: Seq<ItemView>) -> bool {
    forall|i: int| 0 <= i < items.len() ==> #[trigger] count_ok(items, i)
}

/// The invariant of a list's items.
pub open spec fn well_formed(items: Seq<ItemView>) -> bool {
    &&& nested(items)
    &&& children_listed(items)
    &&& counted(items)
}

/// `[c, e)` holds item `c` and everything below it, and nothing else follows
/// directly: each item after `c` in the range has its parent in the range, and
/// the item at `e`, if there is one, does not.
pub open spec fn is_block(items: Seq<ItemView>, c: int, e: int) -> bool {
    &&& 0 <= c < e <= items.len()
    &&& forall|j: int| c < j < e ==> #[trigger] par(items, j) >= c
    &&& e < items.len() ==> par(items, e) < c
}

/// The first position at or after `j` whose item does not hang below `c`.
pub open spec fn scan_end(items: Seq<ItemView>, c: int, j: int) -> int
    decreases items.len() - j,
{
    if j >= items.len() || par(items, j) < c {
        j
    } else {
        scan_end(items, c, j + 1)
    }
}

/// The position right after the subtree of item `c`.
pub open spec fn subtree_end(items: Seq<ItemView>, c: int) -> int {
    scan_end(items, c, c + 1)
}

/// The number of items in the subtree of item `c`, itself included.
pub open spec fn subtree_size(items: Seq<ItemView>, c: int) -> int {
    subtree_end(items, c) - c
}

/// Whether item `j` is item `root` or lies below it, following parent links.
pub open spec fn in_subtree(items: Seq<ItemView>, root: int, j: int) -> bool
    decreases j,
{
    if j == root {
        true
    } else if 0 <= j < items.len() && 0 <= par(items, j) < j {
        in_subtree(items, root, par(items, j))
    } else {
        false
    }
}

/// Scanning from `j` finds the end of the subtree of `c`, given that all items
/// between the two hang below `c`.
pub proof fn lemma_scan_end(items: Seq<ItemView>, c: int, j: int)
    requires
        0 <= c < j <= items.len(),
        forall|x: int| c < x < j ==> #[trigger] par(items, x) >= c,
    ensures
        is_block(items, c, scan_end(items, c, j)),
        scan_end(items, c, j) >= j,
    decreases items.len() - j,
{
    if j >= items.len() || par(items, j) < c {
    } else {
        lemma_scan_end(items, c, j + 1);
    }
}

/// The subtree of an item is a block, and its only one.
pub proof fn lemma_subtree_end(items: Seq<ItemView>, c: int)
    requires
        0 <= c < items.len(),
    ensures
        is_block(items, c, subtree_end(items, c)),
        forall|e: int| is_block(items, c, e) ==> e == subtree_end(items, c),
{
    lemma_scan_end(items, c, c + 1);
    let end = subtree_end(items, c);
    assert forall|e: int| is_block(items, c, e) implies e == end by {
        if e < end {
            assert(par(items, e) >= c);
        }
        if end < e {
            assert(par(items, end) >= c);
        }
    }
}

/// No item behind a block has its parent inside the block.
pub proof fn lemma_block_closed(items: Seq<ItemView>, c: int, e: int)
    requires
        nested(items),
        is_block(items, c, e),
    ensures
        forall|j: int| e <= j < items.len() ==> #[trigger] par(items, j) < c || par(items, j) >= e,
{
    assert forall|j: int| e <= j < items.len() implies #[trigger] par(items, j) < c || par(items, j)
        >= e by {
        if j > e && par(items, j) < e {
            assert(par(items, j) <= par(items, e));
        }
    }
}

/// No item lies below an item that stands behind it.
proof fn lemma_not_below_later(items: Seq<ItemView>, root: int, j: int)
    requires
        j < root,
    ensures
        !in_subtree(items, root, j),
    decreases j,
{
    if 0 <= j < items.len() && 0 <= par(items, j) < j {
        lemma_not_below_later(items, root, par(items, j));
    }
}

/// Item `j` lies in the subtree of `i` exactly if it stands in the block of
/// `i`.
proof fn lemma_subtree_members(items: Seq<ItemView>, i: int, j: int)
    requires
        nested(items),
        0 <= i < items.len(),
        0 <= j < items.len(),
    ensures
        in_subtree(items, i, j) <==> i <= j < subtree_end(items, i),
    decreases j,
{
    lemma_subtree_end(items, i);
    let e = subtree_end(items, i);
    lemma_block_closed(items, i, e);
    if j < i {
        lemma_not_below_later(items, i, j);
    } else if j > i {
        let p = par(items, j);
        if 0 <= p {
            lemma_subtree_members(items, i, p);
        }
    }
}

/// In a well-formed list the subtree of every item, found by following parent
/// links, is a run of adjacent positions that starts at the item itself:
/// item `j` is `i` or lies below `i` exactly if `i <= j < subtree_end(i)`.
pub proof fn lemma_subtrees_are_contiguous(items: Seq<ItemView>)
    requires
        nested(items),
    ensures
        forall|i: int, j: int|
            0 <= i < items.len() && 0 <= j < items.len() ==> (#[trigger] in_subtree(items, i, j) <==> i
                <= j < subtree_end(items, i)),
        forall|i: int| 0 <= i < items.len() ==> i < #[trigger] subtree_end(items, i) <= items.len(),
{
    assert forall|i: int, j: int| 0 <= i < items.len() && 0 <= j < items.len() implies (
    #[trigger] in_subtree(items, i, j) <==> i <= j < subtree_end(items, i)) by {
        lemma_subtree_members(items, i, j);
    }
    assert forall|i: int| 0 <= i < items.len() implies i < #[trigger] subtree_end(items, i)
        <= items.len() by {
        lemma_subtree_end(items, i);
    }
}

/// The `k`-th subtask of item `i` stands at least `k + 1` positions behind it.
pub proof fn lemma_child_rank(items: Seq<ItemView>, i: int, k: int)
    requires
        children_listed(items),
        0 <= i < items.len(),
        0 <= k < items[i].children.len(),
    ensures
        items[i].children[k] >= i + 1 + k,
    decreases k,
{
    let c = items[i].children[k];
    assert(i < c < items.len() && par(items, c) == i);
    if k > 0 {
        lemma_child_rank(items, i, k - 1);
        assert(items[i].children[k - 1] < items[i].children[k]);
    }
}

/// An item has fewer subtasks than items stand behind it, and its count of
/// active subtasks is no larger.
pub proof fn lemma_children_bound(items: Seq<ItemView>, i: int)
    requires
        children_listed(items),
        0 <= i < items.len(),
    ensures
        items[i].children.len() <= items.len() - i - 1,
        active_kids(items, items[i].children) <= items.len() - i - 1,
{
    let n = items[i].children.len() as int;
    if n > 0 {
        lemma_child_rank(items, i, n - 1);
        let c = items[i].children[n - 1];
        assert(i < c < items.len() && par(items, c) == i);
    }
    lemma_count_at_most(kid_flags(items, items[i].children));
}

/// No more flags are set than there are.
pub proof fn lemma_count_at_most(flags: Seq<bool>)
    ensures
        count_true(flags) <= flags.len(),
    decreases flags.len(),
{
    if flags.len() > 0 {
        lemma_count_at_most(flags.drop_last());
    }
}

/// Where position `r` goes when the adjacent ranges `[lo, mid)` and
/// `[mid, hi)` change places.
pub open spec fn moved(r: int, lo: int, mid: int, hi: int) -> int {
    if lo <= r < mid {
        r + (hi - mid)
    } else if mid <= r < hi {
        r - (mid - lo)
    } else {
        r
    }
}

/// The position that ends up at `t` when `[lo, mid)` and `[mid, hi)` change
/// places.
pub open spec fn origin(t: int, lo: int, mid: int, hi: int) -> int {
    moved(t, lo, lo + (hi - mid), hi)
}

/// The item with its links following the exchange of `[lo, mid)` and
/// `[mid, hi)`.
pub open spec fn relinked(v: ItemView, lo: int, mid: int, hi: int) -> ItemView {
    ItemView {
        parent: match v.parent {
            Some(p) => Some(moved(p, lo, mid, hi)),
            None => None,
        },
        children: Seq::new(v.children.len(), |k: int| moved(v.children[k], lo, mid, hi)),
        ..v
    }
}

/// The items after the adjacent ranges `[lo, mid)` and `[mid, hi)` changed
/// places, every link following the item it points to.
pub open spec fn rotated(items: Seq<ItemView>, lo: int, mid: int, hi: int) -> Seq<ItemView> {
    Seq::new(items.len(), |t: int| relinked(items[origin(t, lo, mid, hi)], lo, mid, hi))
}

} // verus!
