//! What the structural edits make of a list's items, and why each leaves the
//! items well formed.

use vstd::prelude::*;
use crate::activity::{lemma_count_push, lemma_count_remove, lemma_count_update, one_short};
use crate::forest::{
    active_kids, children_listed, count_ok, counted, is_block, kid_flags, lemma_block_closed,
    lemma_subtree_end, moved, nested, origin, par, rotated, subtree_end, well_formed,
};
use crate::item::ItemView;
use crate::timestamp::Timestamp;

verus! {

/// The subtasks of the parent of two sibling blocks that stand at `a` and `b`
/// and end at `e`, after the two changed places: the first of the two now
/// starts where the second block's length puts it.
pub open spec fn reordered(kids: Seq<int>, a: int, b: int, e: int) -> Seq<int> {
    Seq::new(
        kids.len(),
        |x: int|
            if kids[x] == b {
                a + (e - b)
            } else {
                kids[x]
            },
    )
}

/// The items after the sibling subtrees `[a, b)` and `[b, e)` changed places.
#[verifier::opaque]
pub open spec fn swapped(items: Seq<ItemView>, a: int, b: int, e: int) -> Seq<ItemView> {
    let r = rotated(items, a, b, e);
    let p = par(items, a);
    if p >= 0 {
        r.update(p, ItemView { children: reordered(items[p].children, a, b, e), ..r[p] })
    } else {
        r
    }
}

/// What `s` holds if it is `items` after the sibling subtrees `[a, b)` and
/// `[b, e)` changed places, item by item.
pub open spec fn is_swap(items: Seq<ItemView>, s: Seq<ItemView>, a: int, b: int, e: int) -> bool {
    let n = items.len() as int;
    let p = par(items, a);
    &&& s.len() == n
    &&& forall|t: int|
        0 <= t < n ==> {
            let i = origin(t, a, b, e);
            &&& (#[trigger] s[t]).act_cnt == items[i].act_cnt
            &&& s[t].text == items[i].text
            &&& s[t].date == items[i].date
            &&& s[t].parent is Some <==> items[i].parent is Some
            &&& par(s, t) == if par(items, i) >= 0 {
                moved(par(items, i), a, b, e)
            } else {
                -1
            }
            &&& s[t].children.len() == items[i].children.len()
        }
    &&& forall|t: int, k: int|
        0 <= t < n && 0 <= k < s[t].children.len() ==> #[trigger] s[t].children[k] == if t == p {
            if items[p].children[k] == b {
                a + (e - b)
            } else {
                items[p].children[k]
            }
        } else {
            moved(items[origin(t, a, b, e)].children[k], a, b, e)
        }
}

/// What `swapped` gives, item by item.
pub proof fn lemma_swap_links(items: Seq<ItemView>, a: int, b: int, e: int)
    requires
        nested(items),
        is_block(items, a, b),
        is_block(items, b, e),
    ensures
        is_swap(items, swapped(items, a, b, e), a, b, e),
{
    reveal(swapped);
    let s = swapped(items, a, b, e);
    let n = items.len() as int;
    let p = par(items, a);
    assert(-1 <= par(items, a) < a);
    assert forall|t: int| 0 <= t < n implies {
        let i = origin(t, a, b, e);
        &&& (#[trigger] s[t]).act_cnt == items[i].act_cnt
        &&& s[t].text == items[i].text
        &&& s[t].date == items[i].date
        &&& s[t].parent is Some <==> items[i].parent is Some
        &&& par(s, t) == if par(items, i) >= 0 {
            moved(par(items, i), a, b, e)
        } else {
            -1
        }
        &&& s[t].children.len() == items[i].children.len()
    } by {
        let i = origin(t, a, b, e);
        assert(-1 <= par(items, i) < i);
    }
}

/// After the exchange every parent stands before its subtasks, and subtrees do
/// not overlap.
proof fn lemma_swap_nested(items: Seq<ItemView>, s: Seq<ItemView>, a: int, b: int, e: int)
    requires
        nested(items),
        is_block(items, a, b),
        is_block(items, b, e),
        par(items, a) == par(items, b),
        is_swap(items, s, a, b, e),
    ensures
        nested(s),
{
    let n = items.len() as int;
    lemma_block_closed(items, a, b);
    lemma_block_closed(items, b, e);
    assert(-1 <= par(items, a) < a);
    assert forall|t: int| 0 <= t < n implies -1 <= #[trigger] par(s, t) < t && (s[t].parent is Some
        ==> par(s, t) >= 0) by {
        let i = origin(t, a, b, e);
        assert(-1 <= par(items, i) < i);
        assert(s[t].act_cnt == items[i].act_cnt);
    }
    assert forall|t: int, u: int| 0 <= t < u < n && #[trigger] par(s, u) < t implies par(s, u)
        <= #[trigger] par(s, t) by {
        let i = origin(t, a, b, e);
        let j = origin(u, a, b, e);
        assert(s[t].act_cnt == items[i].act_cnt);
        assert(s[u].act_cnt == items[j].act_cnt);
        assert(-1 <= par(items, i) < i);
        assert(-1 <= par(items, j) < j);
        if i < j {
            assert(par(items, j) < i ==> par(items, j) <= par(items, i));
        }
    }
}

/// After the exchange every item lists its subtasks in order.
proof fn lemma_swap_children(items: Seq<ItemView>, s: Seq<ItemView>, a: int, b: int, e: int)
    requires
        nested(items),
        children_listed(items),
        is_block(items, a, b),
        is_block(items, b, e),
        par(items, a) == par(items, b),
        is_swap(items, s, a, b, e),
    ensures
        children_listed(s),
{
    let n = items.len() as int;
    let p = par(items, a);
    lemma_block_closed(items, a, b);
    lemma_block_closed(items, b, e);
    assert(-1 <= par(items, a) < a);
    assert forall|t: int, k: int| 0 <= t < n && 0 <= k < s[t].children.len() implies {
        let c = #[trigger] s[t].children[k];
        t < c < n && par(s, c) == t
    } by {
        let i = origin(t, a, b, e);
        assert(s[t].act_cnt == items[i].act_cnt);
        let d = items[i].children[k];
        assert(i < d < n && par(items, d) == i);
        let c = s[t].children[k];
        assert(s[c].act_cnt == items[origin(c, a, b, e)].act_cnt);
    }
    assert forall|t: int, k: int, l: int|
        0 <= t < n && 0 <= k < l < s[t].children.len() implies #[trigger] s[t].children[k]
        < #[trigger] s[t].children[l] by {
        let i = origin(t, a, b, e);
        assert(s[t].act_cnt == items[i].act_cnt);
        let d1 = items[i].children[k];
        let d2 = items[i].children[l];
        assert(i < d1 < n && par(items, d1) == i);
        assert(i < d2 < n && par(items, d2) == i);
        assert(d1 < d2);
    }
    assert forall|u: int| 0 <= u < n && par(s, u) >= 0 implies #[trigger] s[par(s, u)].children.contains(
        u,
    ) by {
        let j = origin(u, a, b, e);
        assert(s[u].act_cnt == items[j].act_cnt);
        let q = par(items, j);
        assert(-1 <= par(items, j) < j);
        assert(items[q].children.contains(j));
        let k = choose|k: int| 0 <= k < items[q].children.len() && items[q].children[k] == j;
        let t = par(s, u);
        assert(s[t].act_cnt == items[origin(t, a, b, e)].act_cnt);
        if q == p && (j == a || j == b) {
            let other = if j == a {
                b
            } else {
                a
            };
            assert(items[p].children.contains(other));
            let k2 = choose|k: int| 0 <= k < items[p].children.len() && items[p].children[k] == other;
            assert(s[t].children[k2] == u);
        } else {
            assert(s[t].children[k] == u);
        }
    }
}

/// After the exchange every count is right.
proof fn lemma_swap_counted(items: Seq<ItemView>, s: Seq<ItemView>, a: int, b: int, e: int)
    requires
        well_formed(items),
        is_block(items, a, b),
        is_block(items, b, e),
        par(items, a) == par(items, b),
        is_swap(items, s, a, b, e),
    ensures
        counted(s),
{
    let n = items.len() as int;
    let p = par(items, a);
    lemma_block_closed(items, a, b);
    lemma_block_closed(items, b, e);
    assert(-1 <= par(items, a) < a);
    assert forall|t: int| 0 <= t < n implies #[trigger] count_ok(s, t) by {
        let i = origin(t, a, b, e);
        assert(s[t].act_cnt == items[i].act_cnt);
        assert(count_ok(items, i));
        let old_flags = kid_flags(items, items[i].children);
        let new_flags = kid_flags(s, s[t].children);
        if t == p {
            assert(items[p].children.contains(a));
            assert(items[p].children.contains(b));
            let ka = choose|k: int| 0 <= k < items[p].children.len() && items[p].children[k] == a;
            let kb = choose|k: int| 0 <= k < items[p].children.len() && items[p].children[k] == b;
            let mid_flags = old_flags.update(ka, old_flags[kb]);
            assert forall|x: int| 0 <= x < new_flags.len() implies new_flags[x] == mid_flags.update(
                kb,
                old_flags[ka],
            )[x] by {
                let d = items[p].children[x];
                assert(p < d < n && par(items, d) == p);
                let c = s[p].children[x];
                assert(s[c].act_cnt == items[origin(c, a, b, e)].act_cnt);
                if x != ka && x != kb {
                    if x < ka {
                        assert(items[p].children[x] < items[p].children[ka]);
                    } else {
                        assert(items[p].children[ka] < items[p].children[x]);
                    }
                    if x < kb {
                        assert(items[p].children[x] < items[p].children[kb]);
                    } else {
                        assert(items[p].children[kb] < items[p].children[x]);
                    }
                }
            }
            assert(new_flags =~= mid_flags.update(kb, old_flags[ka]));
            lemma_count_update(old_flags, ka, old_flags[kb]);
            lemma_count_update(mid_flags, kb, old_flags[ka]);
        } else {
            assert forall|x: int| 0 <= x < new_flags.len() implies new_flags[x] == old_flags[x] by {
                let d = items[i].children[x];
                assert(i < d < n && par(items, d) == i);
                let c = s[t].children[x];
                assert(s[c].act_cnt == items[origin(c, a, b, e)].act_cnt);
            }
            assert(new_flags =~= old_flags);
        }
    }
}

/// Exchanging two adjacent sibling subtrees leaves the items well formed.
pub proof fn lemma_swapped(items: Seq<ItemView>, a: int, b: int, e: int)
    requires
        well_formed(items),
        is_block(items, a, b),
        is_block(items, b, e),
        par(items, a) == par(items, b),
    ensures
        swapped(items, a, b, e).len() == items.len(),
        well_formed(swapped(items, a, b, e)),
{
    let s = swapped(items, a, b, e);
    lemma_swap_links(items, a, b, e);
    lemma_swap_nested(items, s, a, b, e);
    lemma_swap_children(items, s, a, b, e);
    lemma_swap_counted(items, s, a, b, e);
}

/// The items after item `c` and everything below it were taken out. The
/// parent of `c`, if it has one, lists it no longer, and counts one less if `c`
/// was active.
#[verifier::opaque]
pub open spec fn removed(items: Seq<ItemView>, c: int) -> Seq<ItemView> {
    let e = subtree_end(items, c);
    let n = items.len() as int;
    let p = par(items, c);
    let unhooked = if p >= 0 {
        items.update(
            p,
            ItemView {
                children: items[p].children.remove(items[p].children.index_of(c)),
                act_cnt: if items[c].act_cnt > 0 {
                    (items[p].act_cnt - 1) as nat
                } else {
                    items[p].act_cnt
                },
                ..items[p]
            },
        )
    } else {
        items
    };
    rotated(unhooked, c, e, n).take(n - (e - c))
}

/// Where position `x` stands once the `k` positions from `c` on are gone.
pub open spec fn closed_up(x: int, c: int, k: int) -> int {
    if x >= c + k {
        x - k
    } else {
        x
    }
}

/// What `s` holds if it is `items` without the block `[c, e)`, item by item.
pub open spec fn is_removal(items: Seq<ItemView>, s: Seq<ItemView>, c: int, e: int) -> bool {
    let n = items.len() as int;
    let k = e - c;
    let p = par(items, c);
    &&& s.len() == n - k
    &&& forall|t: int|
        0 <= t < n - k ==> {
            let i = if t < c {
                t
            } else {
                t + k
            };
            &&& (#[trigger] s[t]).act_cnt == if i == p && items[c].act_cnt > 0 {
                (items[p].act_cnt - 1) as nat
            } else {
                items[i].act_cnt
            }
            &&& s[t].text == items[i].text
            &&& s[t].date == items[i].date
            &&& s[t].parent is Some <==> items[i].parent is Some
            &&& par(s, t) == closed_up(par(items, i), c, k)
            &&& s[t].children.len() == if i == p {
                items[i].children.len() - 1
            } else {
                items[i].children.len() as int
            }
        }
    &&& forall|t: int, x: int|
        0 <= t < n - k && 0 <= x < s[t].children.len() ==> {
            let i = if t < c {
                t
            } else {
                t + k
            };
            #[trigger] s[t].children[x] == closed_up(
                items[i].children[if i == p && x >= items[p].children.index_of(c) {
                    x + 1
                } else {
                    x
                }],
                c,
                k,
            )
        }
}

/// What `removed` gives, item by item.
pub proof fn lemma_removal_links(items: Seq<ItemView>, c: int)
    requires
        well_formed(items),
        0 <= c < items.len(),
    ensures
        is_removal(items, removed(items, c), c, subtree_end(items, c)),
{
    reveal(removed);
    let e = subtree_end(items, c);
    lemma_subtree_end(items, c);
    lemma_block_closed(items, c, e);
    let s = removed(items, c);
    let n = items.len() as int;
    let k = e - c;
    let p = par(items, c);
    assert(-1 <= par(items, c) < c);
    if p >= 0 {
        assert(items[p].children.contains(c));
    }
    assert forall|t: int| 0 <= t < n - k implies {
        let i = if t < c {
            t
        } else {
            t + k
        };
        &&& (#[trigger] s[t]).act_cnt == if i == p && items[c].act_cnt > 0 {
            (items[p].act_cnt - 1) as nat
        } else {
            items[i].act_cnt
        }
        &&& s[t].text == items[i].text
        &&& s[t].date == items[i].date
        &&& s[t].parent is Some <==> items[i].parent is Some
        &&& par(s, t) == closed_up(par(items, i), c, k)
        &&& s[t].children.len() == if i == p {
            items[i].children.len() - 1
        } else {
            items[i].children.len() as int
        }
    } by {
        let i = if t < c {
            t
        } else {
            t + k
        };
        assert(-1 <= par(items, i) < i);
        assert(i >= e ==> par(items, i) < c || par(items, i) >= e);
    }
    assert forall|t: int, x: int| 0 <= t < n - k && 0 <= x < s[t].children.len() implies {
        let i = if t < c {
            t
        } else {
            t + k
        };
        #[trigger] s[t].children[x] == closed_up(
            items[i].children[if i == p && x >= items[p].children.index_of(c) {
                x + 1
            } else {
                x
            }],
            c,
            k,
        )
    } by {
        let i = if t < c {
            t
        } else {
            t + k
        };
        let y = if i == p && x >= items[p].children.index_of(c) {
            x + 1
        } else {
            x
        };
        let d = items[i].children[y];
        assert(i < d < n && par(items, d) == i);
        if c <= d < e {
            // A kept item lists nothing inside the block but `c` itself.
            assert(d > c ==> par(items, d) >= c);
            if d == c {
                let kc = items[p].children.index_of(c);
                if y < kc {
                    assert(items[p].children[y] < items[p].children[kc]);
                } else if y > kc {
                    assert(items[p].children[kc] < items[p].children[y]);
                }
            }
        }
    }
}

/// After the removal every parent stands before its subtasks, and subtrees do
/// not overlap.
proof fn lemma_removal_nested(items: Seq<ItemView>, s: Seq<ItemView>, c: int, e: int)
    requires
        nested(items),
        is_block(items, c, e),
        is_removal(items, s, c, e),
    ensures
        nested(s),
{
    let n = items.len() as int;
    let k = e - c;
    lemma_block_closed(items, c, e);
    assert forall|t: int| 0 <= t < n - k implies -1 <= #[trigger] par(s, t) < t && (s[t].parent is Some
        ==> par(s, t) >= 0) by {
        let i = if t < c {
            t
        } else {
            t + k
        };
        assert(-1 <= par(items, i) < i);
        assert(s[t].act_cnt >= 0);
    }
    assert forall|t: int, u: int| 0 <= t < u < n - k && #[trigger] par(s, u) < t implies par(s, u)
        <= #[trigger] par(s, t) by {
        let i = if t < c {
            t
        } else {
            t + k
        };
        let j = if u < c {
            u
        } else {
            u + k
        };
        assert(s[t].act_cnt >= 0);
        assert(s[u].act_cnt >= 0);
        assert(-1 <= par(items, i) < i);
        assert(-1 <= par(items, j) < j);
        assert(par(items, j) < i ==> par(items, j) <= par(items, i));
    }
}

/// After the removal every item lists its subtasks in order.
proof fn lemma_removal_children(items: Seq<ItemView>, s: Seq<ItemView>, c: int, e: int)
    requires
        nested(items),
        children_listed(items),
        is_block(items, c, e),
        is_removal(items, s, c, e),
    ensures
        children_listed(s),
{
    let n = items.len() as int;
    let k = e - c;
    let p = par(items, c);
    lemma_block_closed(items, c, e);
    assert(-1 <= par(items, c) < c);
    let kc = if p >= 0 {
        items[p].children.index_of(c)
    } else {
        0
    };
    if p >= 0 {
        assert(items[p].children.contains(c));
    }
    assert forall|t: int, x: int| 0 <= t < n - k && 0 <= x < s[t].children.len() implies {
        let d = #[trigger] s[t].children[x];
        t < d < n - k && par(s, d) == t
    } by {
        let i = if t < c {
            t
        } else {
            t + k
        };
        assert(s[t].act_cnt >= 0);
        let y = if i == p && x >= kc {
            x + 1
        } else {
            x
        };
        let d = items[i].children[y];
        assert(i < d < n && par(items, d) == i);
        if d != c {
            assert(c < d < e ==> par(items, d) >= c);
        } else {
            if y < kc {
                assert(items[p].children[y] < items[p].children[kc]);
            } else if y > kc {
                assert(items[p].children[kc] < items[p].children[y]);
            }
        }
        let dd = s[t].children[x];
        assert(s[dd].act_cnt >= 0);
    }
    assert forall|t: int, x: int, l: int|
        0 <= t < n - k && 0 <= x < l < s[t].children.len() implies #[trigger] s[t].children[x]
        < #[trigger] s[t].children[l] by {
        let i = if t < c {
            t
        } else {
            t + k
        };
        assert(s[t].act_cnt >= 0);
        let y1 = if i == p && x >= kc {
            x + 1
        } else {
            x
        };
        let y2 = if i == p && l >= kc {
            l + 1
        } else {
            l
        };
        let d1 = items[i].children[y1];
        let d2 = items[i].children[y2];
        assert(d1 < d2);
        assert(i < d1 < n && par(items, d1) == i);
        assert(i < d2 < n && par(items, d2) == i);
        assert(c < d1 < e ==> par(items, d1) >= c);
        assert(c < d2 < e ==> par(items, d2) >= c);
        if d1 == c {
            if y1 < kc {
                assert(items[p].children[y1] < items[p].children[kc]);
            } else if y1 > kc {
                assert(items[p].children[kc] < items[p].children[y1]);
            }
        }
        if d2 == c {
            if y2 < kc {
                assert(items[p].children[y2] < items[p].children[kc]);
            } else if y2 > kc {
                assert(items[p].children[kc] < items[p].children[y2]);
            }
        }
    }
    assert forall|u: int| 0 <= u < n - k && par(s, u) >= 0 implies #[trigger] s[par(s, u)].children.contains(
        u,
    ) by {
        let j = if u < c {
            u
        } else {
            u + k
        };
        assert(s[u].act_cnt >= 0);
        let q = par(items, j);
        assert(-1 <= par(items, j) < j);
        assert(j >= e ==> q < c || q >= e);
        assert(items[q].children.contains(j));
        let y = choose|y: int| 0 <= y < items[q].children.len() && items[q].children[y] == j;
        let t = par(s, u);
        assert(s[t].act_cnt >= 0);
        let x = if q == p && y > kc {
            y - 1
        } else {
            y
        };
        assert(s[t].children[x] == u);
    }
}

/// After the removal every count is right.
proof fn lemma_removal_counted(items: Seq<ItemView>, s: Seq<ItemView>, c: int, e: int)
    requires
        well_formed(items),
        is_block(items, c, e),
        is_removal(items, s, c, e),
    ensures
        counted(s),
{
    let n = items.len() as int;
    let k = e - c;
    let p = par(items, c);
    lemma_block_closed(items, c, e);
    assert(-1 <= par(items, c) < c);
    let kc = if p >= 0 {
        items[p].children.index_of(c)
    } else {
        0
    };
    if p >= 0 {
        assert(items[p].children.contains(c));
        if items[c].act_cnt > 0 {
            crate::activity::lemma_parent_of_active(items, c);
        }
    }
    assert forall|t: int| 0 <= t < n - k implies #[trigger] count_ok(s, t) by {
        let i = if t < c {
            t
        } else {
            t + k
        };
        assert(s[t].act_cnt >= 0);
        assert(count_ok(items, i));
        let old_flags = kid_flags(items, items[i].children);
        let new_flags = kid_flags(s, s[t].children);
        let want = if i == p {
            old_flags.remove(kc)
        } else {
            old_flags
        };
        assert forall|x: int| 0 <= x < new_flags.len() implies new_flags[x] == want[x] by {
            let y = if i == p && x >= kc {
                x + 1
            } else {
                x
            };
            let d = items[i].children[y];
            assert(i < d < n && par(items, d) == i);
            assert(c < d < e ==> par(items, d) >= c);
            if d == c {
                if y < kc {
                    assert(items[p].children[y] < items[p].children[kc]);
                } else if y > kc {
                    assert(items[p].children[kc] < items[p].children[y]);
                }
            }
            let dd = s[t].children[x];
            assert(s[dd].act_cnt >= 0);
            // The item `d` is not the parent of `c`: it lies behind its own parent `i`.
        }
        assert(new_flags =~= want);
        if i == p {
            lemma_count_remove(old_flags, kc);
        }
    }
}

/// Taking out an item with everything below it leaves the items well formed.
pub proof fn lemma_removed(items: Seq<ItemView>, c: int)
    requires
        well_formed(items),
        0 <= c < items.len(),
    ensures
        removed(items, c).len() == items.len() - (subtree_end(items, c) - c),
        well_formed(removed(items, c)),
{
    let s = removed(items, c);
    let e = subtree_end(items, c);
    lemma_subtree_end(items, c);
    lemma_removal_links(items, c);
    lemma_removal_nested(items, s, c, e);
    lemma_removal_children(items, s, c, e);
    lemma_removal_counted(items, s, c, e);
}

/// A new item without subtasks: empty, active, stamped with `now`.
pub open spec fn fresh(parent: Option<int>, now: Timestamp) -> ItemView {
    ItemView { text: Seq::<char>::empty(), date: now, parent, children: Seq::<int>::empty(), act_cnt: 1 }
}

/// The items after a fresh item was put in at position `at`, below `parent`
/// if that is given. The parent lists it as its last subtask; its count is
/// left as it was.
#[verifier::opaque]
pub open spec fn with_leaf(items: Seq<ItemView>, at: int, parent: Option<int>, now: Timestamp) -> Seq<
    ItemView,
> {
    let n = items.len() as int;
    let hooked = match parent {
        Some(p) => items.update(p, ItemView { children: items[p].children.push(n), ..items[p] }),
        None => items,
    };
    rotated(hooked.push(fresh(parent, now)), at, n, n + 1)
}

/// Where position `x` stands once a position was opened at `at`.
pub open spec fn opened_up(x: int, at: int) -> int {
    if x >= at {
        x + 1
    } else {
        x
    }
}

/// Whether a fresh item can go in at `at` below `parent`: as a root, in front
/// of a root or at the end; as a subtask, right behind the subtree of its
/// parent.
pub open spec fn leaf_fits(items: Seq<ItemView>, at: int, parent: Option<int>) -> bool {
    match parent {
        Some(p) => 0 <= p < items.len() && at == subtree_end(items, p),
        None => 0 <= at <= items.len() && (at < items.len() ==> par(items, at) == -1),
    }
}

/// What `s` holds if it is `items` with a fresh item at `at`, item by item.
pub open spec fn is_leaf_insert(
    items: Seq<ItemView>,
    s: Seq<ItemView>,
    at: int,
    parent: Option<int>,
    now: Timestamp,
) -> bool {
    let n = items.len() as int;
    &&& s.len() == n + 1
    &&& s[at] == fresh(parent, now)
    &&& forall|t: int|
        0 <= t <= n && t != at ==> {
            let i = if t < at {
                t
            } else {
                t - 1
            };
            &&& (#[trigger] s[t]).act_cnt == items[i].act_cnt
            &&& s[t].text == items[i].text
            &&& s[t].date == items[i].date
            &&& s[t].parent is Some <==> items[i].parent is Some
            &&& par(s, t) == opened_up(par(items, i), at)
            &&& s[t].children.len() == if parent == Some(i) {
                items[i].children.len() + 1
            } else {
                items[i].children.len()
            }
        }
    &&& forall|t: int, x: int|
        0 <= t <= n && t != at && 0 <= x < s[t].children.len() ==> {
            let i = if t < at {
                t
            } else {
                t - 1
            };
            #[trigger] s[t].children[x] == if x < items[i].children.len() {
                opened_up(items[i].children[x], at)
            } else {
                at
            }
        }
}

/// What `with_leaf` gives, item by item.
pub proof fn lemma_leaf_links(items: Seq<ItemView>, at: int, parent: Option<int>, now: Timestamp)
    requires
        well_formed(items),
        leaf_fits(items, at, parent),
    ensures
        is_leaf_insert(items, with_leaf(items, at, parent, now), at, parent, now),
{
    reveal(with_leaf);
    let s = with_leaf(items, at, parent, now);
    let n = items.len() as int;
    if parent is Some {
        lemma_subtree_end(items, parent->0);
    }
    assert(s[at] =~= fresh(parent, now)) by {
        assert(s[at].children =~= Seq::<int>::empty());
    }
    assert forall|t: int| 0 <= t <= n && t != at implies {
        let i = if t < at {
            t
        } else {
            t - 1
        };
        &&& (#[trigger] s[t]).act_cnt == items[i].act_cnt
        &&& s[t].text == items[i].text
        &&& s[t].date == items[i].date
        &&& s[t].parent is Some <==> items[i].parent is Some
        &&& par(s, t) == opened_up(par(items, i), at)
        &&& s[t].children.len() == if parent == Some(i) {
            items[i].children.len() + 1
        } else {
            items[i].children.len()
        }
    } by {
        let i = if t < at {
            t
        } else {
            t - 1
        };
        assert(-1 <= par(items, i) < i);
    }
    assert forall|t: int, x: int| 0 <= t <= n && t != at && 0 <= x < s[t].children.len() implies {
        let i = if t < at {
            t
        } else {
            t - 1
        };
        #[trigger] s[t].children[x] == if x < items[i].children.len() {
            opened_up(items[i].children[x], at)
        } else {
            at
        }
    } by {
        let i = if t < at {
            t
        } else {
            t - 1
        };
        if x < items[i].children.len() {
            let d = items[i].children[x];
            assert(i < d < n && par(items, d) == i);
        }
    }
}

/// With the fresh item every parent stands before its subtasks, and subtrees do
/// not overlap.
proof fn lemma_leaf_nested(
    items: Seq<ItemView>,
    s: Seq<ItemView>,
    at: int,
    parent: Option<int>,
    now: Timestamp,
)
    requires
        nested(items),
        leaf_fits(items, at, parent),
        is_leaf_insert(items, s, at, parent, now),
    ensures
        nested(s),
{
    let n = items.len() as int;
    if parent is Some {
        let p = parent->0;
        lemma_subtree_end(items, p);
        lemma_block_closed(items, p, at);
    }
    assert forall|t: int| 0 <= t <= n implies -1 <= #[trigger] par(s, t) < t && (s[t].parent is Some
        ==> par(s, t) >= 0) by {
        if t != at {
            let i = if t < at {
                t
            } else {
                t - 1
            };
            assert(-1 <= par(items, i) < i);
            assert(s[t].act_cnt >= 0);
        }
    }
    assert forall|t: int, u: int| 0 <= t < u <= n && #[trigger] par(s, u) < t implies par(s, u)
        <= #[trigger] par(s, t) by {
        let i = if t < at {
            t
        } else {
            t - 1
        };
        let j = if u < at {
            u
        } else {
            u - 1
        };
        if t != at {
            assert(s[t].act_cnt >= 0);
            assert(-1 <= par(items, i) < i);
        }
        if u != at {
            assert(s[u].act_cnt >= 0);
            assert(-1 <= par(items, j) < j);
        }
        if t != at && u != at {
            assert(par(items, j) < i ==> par(items, j) <= par(items, i));
        }
        if t == at && at < n {
            // What follows the fresh item followed its place before.
            assert(par(items, at) >= -1);
            if j > at {
                assert(par(items, j) < at ==> par(items, j) <= par(items, at));
            }
        }
    }
}

/// With the fresh item every item lists its subtasks in order.
proof fn lemma_leaf_children(
    items: Seq<ItemView>,
    s: Seq<ItemView>,
    at: int,
    parent: Option<int>,
    now: Timestamp,
)
    requires
        nested(items),
        children_listed(items),
        leaf_fits(items, at, parent),
        is_leaf_insert(items, s, at, parent, now),
    ensures
        children_listed(s),
{
    let n = items.len() as int;
    if parent is Some {
        let p = parent->0;
        lemma_subtree_end(items, p);
        lemma_block_closed(items, p, at);
    }
    assert forall|t: int, x: int| 0 <= t <= n && 0 <= x < s[t].children.len() implies {
        let d = #[trigger] s[t].children[x];
        t < d <= n && par(s, d) == t
    } by {
        let i = if t < at {
            t
        } else {
            t - 1
        };
        assert(s[t].act_cnt >= 0);
        if x < items[i].children.len() {
            let d = items[i].children[x];
            assert(i < d < n && par(items, d) == i);
            let dd = s[t].children[x];
            assert(s[dd].act_cnt >= 0);
        }
    }
    assert forall|t: int, x: int, l: int|
        0 <= t <= n && 0 <= x < l < s[t].children.len() implies #[trigger] s[t].children[x]
        < #[trigger] s[t].children[l] by {
        let i = if t < at {
            t
        } else {
            t - 1
        };
        assert(s[t].act_cnt >= 0);
        let d1 = items[i].children[x];
        assert(i < d1 < n && par(items, d1) == i);
        if l < items[i].children.len() {
            let d2 = items[i].children[l];
            assert(d1 < d2);
        } else {
            // The subtasks listed so far lie inside the parent's subtree.
            assert(d1 >= at ==> par(items, d1) < i || par(items, d1) >= at);
        }
    }
    assert forall|u: int| 0 <= u <= n && par(s, u) >= 0 implies #[trigger] s[par(s, u)].children.contains(
        u,
    ) by {
        let t = par(s, u);
        if u == at {
            let p = parent->0;
            assert(s[t].act_cnt >= 0);
            assert(s[t].children[items[p].children.len() as int] == u);
        } else {
            let j = if u < at {
                u
            } else {
                u - 1
            };
            assert(s[u].act_cnt >= 0);
            let q = par(items, j);
            assert(-1 <= par(items, j) < j);
            assert(items[q].children.contains(j));
            let y = choose|y: int| 0 <= y < items[q].children.len() && items[q].children[y] == j;
            assert(s[t].act_cnt >= 0);
            assert(s[t].children[y] == u);
        }
    }
}

/// With the fresh item the count of every other item is right, but that of its
/// parent, which is one short.
proof fn lemma_leaf_count_at(
    items: Seq<ItemView>,
    s: Seq<ItemView>,
    at: int,
    parent: Option<int>,
    now: Timestamp,
    t: int,
)
    requires
        well_formed(items),
        leaf_fits(items, at, parent),
        is_leaf_insert(items, s, at, parent, now),
        0 <= t <= items.len(),
        t != at,
    ensures
        parent != Some(t) ==> count_ok(s, t),
        parent == Some(t) ==> if s[t].act_cnt > 0 {
            s[t].act_cnt == active_kids(s, s[t].children)
        } else {
            active_kids(s, s[t].children) == 1
        },
{
    let n = items.len() as int;
    if parent is Some {
        let p = parent->0;
        lemma_subtree_end(items, p);
        lemma_block_closed(items, p, at);
    }
    let i = if t < at {
        t
    } else {
        t - 1
    };
    assert(s[t].act_cnt >= 0);
    assert(count_ok(items, i));
    let old_flags = kid_flags(items, items[i].children);
    let new_flags = kid_flags(s, s[t].children);
    let want = if parent == Some(i) {
        old_flags.push(true)
    } else {
        old_flags
    };
    assert forall|x: int| 0 <= x < new_flags.len() implies new_flags[x] == want[x] by {
        if x < items[i].children.len() {
            let d = items[i].children[x];
            assert(i < d < n && par(items, d) == i);
            let dd = s[t].children[x];
            assert(s[dd].act_cnt >= 0);
        }
    }
    assert(new_flags =~= want);
    if parent == Some(i) {
        lemma_count_push(old_flags, true);
    }
}

/// With a fresh root every count is right; with a fresh subtask its parent is
/// one short.
proof fn lemma_leaf_counted(
    items: Seq<ItemView>,
    s: Seq<ItemView>,
    at: int,
    parent: Option<int>,
    now: Timestamp,
)
    requires
        well_formed(items),
        leaf_fits(items, at, parent),
        is_leaf_insert(items, s, at, parent, now),
    ensures
        match parent {
            Some(p) => one_short(s, p),
            None => counted(s),
        },
{
    let n = items.len() as int;
    assert(count_ok(s, at)) by {
        assert(kid_flags(s, s[at].children) =~= Seq::<bool>::empty());
    }
    assert forall|t: int| 0 <= t <= n && parent != Some(t) implies #[trigger] count_ok(s, t) by {
        if t != at {
            lemma_leaf_count_at(items, s, at, parent, now, t);
        }
    }
    if parent is Some {
        let p = parent->0;
        lemma_subtree_end(items, p);
        lemma_leaf_count_at(items, s, at, parent, now, p);
    }
}

/// Putting in a fresh item keeps the parent links and the subtask lists in
/// order. The counts stay right where the item is a root; where it is a
/// subtask, its parent is one short.
pub proof fn lemma_with_leaf(items: Seq<ItemView>, at: int, parent: Option<int>, now: Timestamp)
    requires
        well_formed(items),
        leaf_fits(items, at, parent),
    ensures
        with_leaf(items, at, parent, now).len() == items.len() + 1,
        nested(with_leaf(items, at, parent, now)),
        children_listed(with_leaf(items, at, parent, now)),
        match parent {
            Some(p) => one_short(with_leaf(items, at, parent, now), p),
            None => counted(with_leaf(items, at, parent, now)),
        },
{
    let s = with_leaf(items, at, parent, now);
    lemma_leaf_links(items, at, parent, now);
    lemma_leaf_nested(items, s, at, parent, now);
    lemma_leaf_children(items, s, at, parent, now);
    lemma_leaf_counted(items, s, at, parent, now);
}

/// The item with every link moved by `delta` positions.
pub open spec fn rebased(v: ItemView, delta: int) -> ItemView {
    ItemView {
        parent: match v.parent {
            Some(p) => Some(p + delta),
            None => None,
        },
        children: Seq::new(v.children.len(), |k: int| v.children[k] + delta),
        ..v
    }
}

/// The items of `dest` followed by the root `c` of `src` and everything below
/// it, the root stamped with `now`.
#[verifier::opaque]
pub open spec fn grafted(dest: Seq<ItemView>, src: Seq<ItemView>, c: int, now: Timestamp) -> Seq<
    ItemView,
> {
    let e = subtree_end(src, c);
    let m = dest.len() as int;
    dest + Seq::new(
        (e - c) as nat,
        |x: int|
            rebased(
                if x == 0 {
                    ItemView { date: now, ..src[c] }
                } else {
                    src[c + x]
                },
                m - c,
            ),
    )
}

/// What `g` holds if it is `dest` followed by the block `[c, e)` of `src`,
/// item by item.
pub open spec fn is_graft(
    dest: Seq<ItemView>,
    src: Seq<ItemView>,
    g: Seq<ItemView>,
    c: int,
    e: int,
    now: Timestamp,
) -> bool {
    let m = dest.len() as int;
    &&& g.len() == m + (e - c)
    &&& forall|t: int| 0 <= t < m ==> #[trigger] g[t] == dest[t]
    &&& forall|t: int|
        m <= t < m + (e - c) ==> {
            let i = c + (t - m);
            &&& (#[trigger] g[t]).act_cnt == src[i].act_cnt
            &&& g[t].text == src[i].text
            &&& g[t].date == if t == m {
                now
            } else {
                src[i].date
            }
            &&& g[t].parent is Some <==> src[i].parent is Some
            &&& par(g, t) == if par(src, i) >= 0 {
                par(src, i) + (m - c)
            } else {
                -1
            }
            &&& g[t].children.len() == src[i].children.len()
        }
    &&& forall|t: int, x: int|
        m <= t < m + (e - c) && 0 <= x < g[t].children.len() ==> #[trigger] g[t].children[x] == src[c
            + (t - m)].children[x] + (m - c)
}

/// What `grafted` gives, item by item.
pub proof fn lemma_graft_links(dest: Seq<ItemView>, src: Seq<ItemView>, c: int, now: Timestamp)
    requires
        nested(src),
        0 <= c < src.len(),
    ensures
        is_graft(dest, src, grafted(dest, src, c, now), c, subtree_end(src, c), now),
{
    reveal(grafted);
    lemma_subtree_end(src, c);
    let g = grafted(dest, src, c, now);
    let e = subtree_end(src, c);
    let m = dest.len() as int;
    assert forall|t: int| m <= t < m + (e - c) implies {
        let i = c + (t - m);
        &&& (#[trigger] g[t]).act_cnt == src[i].act_cnt
        &&& g[t].text == src[i].text
        &&& g[t].date == if t == m {
            now
        } else {
            src[i].date
        }
        &&& g[t].parent is Some <==> src[i].parent is Some
        &&& par(g, t) == if par(src, i) >= 0 {
            par(src, i) + (m - c)
        } else {
            -1
        }
        &&& g[t].children.len() == src[i].children.len()
    } by {
        let i = c + (t - m);
        assert(-1 <= par(src, i) < i);
    }
}

/// In the joined list every parent stands before its subtasks, and subtrees do
/// not overlap.
proof fn lemma_graft_nested(
    dest: Seq<ItemView>,
    src: Seq<ItemView>,
    g: Seq<ItemView>,
    c: int,
    e: int,
    now: Timestamp,
)
    requires
        nested(dest),
        nested(src),
        is_block(src, c, e),
        par(src, c) == -1,
        is_graft(dest, src, g, c, e, now),
    ensures
        nested(g),
{
    let m = dest.len() as int;
    assert forall|t: int| 0 <= t < g.len() implies -1 <= #[trigger] par(g, t) < t && (g[t].parent is Some
        ==> par(g, t) >= 0) by {
        if t < m {
            assert(g[t] == dest[t]);
            assert(-1 <= par(dest, t) < t);
        } else {
            let i = c + (t - m);
            assert(g[t].act_cnt >= 0);
            assert(-1 <= par(src, i) < i);
            assert(i > c ==> par(src, i) >= c);
        }
    }
    assert forall|t: int, u: int| 0 <= t < u < g.len() && #[trigger] par(g, u) < t implies par(g, u)
        <= #[trigger] par(g, t) by {
        if u < m {
            assert(g[t] == dest[t]);
            assert(g[u] == dest[u]);
            assert(par(dest, u) < t ==> par(dest, u) <= par(dest, t));
        } else {
            let j = c + (u - m);
            assert(g[u].act_cnt >= 0);
            assert(-1 <= par(src, j) < j);
            assert(j > c ==> par(src, j) >= c);
            if t < m {
                assert(g[t] == dest[t]);
                assert(-1 <= par(dest, t) < t);
            } else {
                let i = c + (t - m);
                assert(g[t].act_cnt >= 0);
                assert(-1 <= par(src, i) < i);
                assert(i > c ==> par(src, i) >= c);
                assert(par(src, j) < i ==> par(src, j) <= par(src, i));
            }
        }
    }
}

/// In the joined list every item lists its subtasks in order.
proof fn lemma_graft_children(
    dest: Seq<ItemView>,
    src: Seq<ItemView>,
    g: Seq<ItemView>,
    c: int,
    e: int,
    now: Timestamp,
)
    requires
        nested(dest),
        children_listed(dest),
        nested(src),
        children_listed(src),
        is_block(src, c, e),
        par(src, c) == -1,
        is_graft(dest, src, g, c, e, now),
    ensures
        children_listed(g),
{
    let m = dest.len() as int;
    lemma_block_closed(src, c, e);
    assert forall|t: int, x: int| 0 <= t < g.len() && 0 <= x < g[t].children.len() implies {
        let d = #[trigger] g[t].children[x];
        t < d < g.len() && par(g, d) == t
    } by {
        if t < m {
            assert(g[t] == dest[t]);
            let d = dest[t].children[x];
            assert(t < d < m && par(dest, d) == t);
            assert(g[d] == dest[d]);
        } else {
            let i = c + (t - m);
            assert(g[t].act_cnt >= 0);
            let d = src[i].children[x];
            assert(i < d < src.len() && par(src, d) == i);
            assert(d >= e ==> par(src, d) < c || par(src, d) >= e);
            let dd = g[t].children[x];
            assert(g[dd].act_cnt >= 0);
        }
    }
    assert forall|t: int, x: int, l: int|
        0 <= t < g.len() && 0 <= x < l < g[t].children.len() implies #[trigger] g[t].children[x]
        < #[trigger] g[t].children[l] by {
        if t < m {
            assert(g[t] == dest[t]);
            assert(dest[t].children[x] < dest[t].children[l]);
        } else {
            let i = c + (t - m);
            assert(g[t].act_cnt >= 0);
            assert(src[i].children[x] < src[i].children[l]);
        }
    }
    assert forall|u: int| 0 <= u < g.len() && par(g, u) >= 0 implies #[trigger] g[par(g, u)].children.contains(
        u,
    ) by {
        let t = par(g, u);
        if u < m {
            assert(g[u] == dest[u]);
            assert(-1 <= par(dest, u) < u);
            assert(g[t] == dest[t]);
            assert(dest[t].children.contains(u));
        } else {
            let j = c + (u - m);
            assert(g[u].act_cnt >= 0);
            let q = par(src, j);
            assert(-1 <= par(src, j) < j);
            assert(j > c ==> par(src, j) >= c);
            assert(src[q].children.contains(j));
            let y = choose|y: int| 0 <= y < src[q].children.len() && src[q].children[y] == j;
            assert(g[t].act_cnt >= 0);
            assert(g[t].children[y] == u);
        }
    }
}

/// In the joined list every count is right.
proof fn lemma_graft_counted(
    dest: Seq<ItemView>,
    src: Seq<ItemView>,
    g: Seq<ItemView>,
    c: int,
    e: int,
    now: Timestamp,
)
    requires
        well_formed(dest),
        well_formed(src),
        is_block(src, c, e),
        par(src, c) == -1,
        is_graft(dest, src, g, c, e, now),
    ensures
        counted(g),
{
    let m = dest.len() as int;
    lemma_block_closed(src, c, e);
    assert forall|t: int| 0 <= t < g.len() implies #[trigger] count_ok(g, t) by {
        if t < m {
            assert(g[t] == dest[t]);
            assert(count_ok(dest, t));
            let old_flags = kid_flags(dest, dest[t].children);
            let new_flags = kid_flags(g, g[t].children);
            assert forall|x: int| 0 <= x < new_flags.len() implies new_flags[x] == old_flags[x] by {
                let d = dest[t].children[x];
                assert(t < d < m && par(dest, d) == t);
                assert(g[d] == dest[d]);
            }
            assert(new_flags =~= old_flags);
        } else {
            let i = c + (t - m);
            assert(g[t].act_cnt >= 0);
            assert(count_ok(src, i));
            let old_flags = kid_flags(src, src[i].children);
            let new_flags = kid_flags(g, g[t].children);
            assert forall|x: int| 0 <= x < new_flags.len() implies new_flags[x] == old_flags[x] by {
                let d = src[i].children[x];
                assert(i < d < src.len() && par(src, d) == i);
                assert(d >= e ==> par(src, d) < c || par(src, d) >= e);
                let dd = g[t].children[x];
                assert(g[dd].act_cnt >= 0);
            }
            assert(new_flags =~= old_flags);
        }
    }
}

/// Putting a root of one well-formed list, with everything below it, behind
/// the items of another gives a well-formed list.
pub proof fn lemma_grafted(dest: Seq<ItemView>, src: Seq<ItemView>, c: int, now: Timestamp)
    requires
        well_formed(dest),
        well_formed(src),
        0 <= c < src.len(),
        par(src, c) == -1,
    ensures
        grafted(dest, src, c, now).len() == dest.len() + (subtree_end(src, c) - c),
        well_formed(grafted(dest, src, c, now)),
{
    let g = grafted(dest, src, c, now);
    let e = subtree_end(src, c);
    lemma_subtree_end(src, c);
    lemma_graft_links(dest, src, c, now);
    lemma_graft_nested(dest, src, g, c, e, now);
    lemma_graft_children(dest, src, g, c, e, now);
    lemma_graft_counted(dest, src, g, c, e, now);
}

} // verus!
