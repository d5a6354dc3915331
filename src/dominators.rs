use vstd::prelude::*;
use crate::graph::ItemGraph;
use crate::reach::Traversal;
use crate::garbage::size_keys;
use crate::idom::{immediate_dominators, latest_dominator, lemma_idom_forest, lemma_idom_nearest};

verus! {

/// `up` links every alive item to a node reached strictly earlier, or to the
/// supersource; every root links to the supersource.
pub open spec fn forest(g: &ItemGraph, t: &Traversal, up: Seq<usize>) -> bool {
    &&& up.len() == g.len()
    &&& forall|x: int|
        0 <= x < g.len() && #[trigger] t.alive@[x] ==> {
            &&& up[x] <= g.len()
            &&& up[x] < g.len() ==> t.alive@[up[x] as int] && t.pos@[up[x] as int] < t.pos@[x]
            &&& g.is_root(x) ==> up[x] == g.len()
        }
}

/// The node reached from `x` after `k` steps up the forest.
pub open spec fn ancestor(up: Seq<usize>, n: int, x: int, k: nat) -> int
    decreases k,
{
    if k == 0 || x == n {
        x
    } else {
        ancestor(up, n, up[x] as int, (k - 1) as nat)
    }
}

/// `a` lies on the way up from `x` (or is `x`).
pub open spec fn is_ancestor(up: Seq<usize>, n: int, a: int, x: int) -> bool {
    exists|k: nat| ancestor(up, n, x, k) == a
}

/// `x` is reached from a root within `steps` edges without passing `a`.
pub open spec fn reach_avoiding(g: &ItemGraph, steps: nat, x: int, a: int) -> bool
    decreases steps,
{
    x != a && if steps == 0 {
        g.is_root(x)
    } else {
        reach_avoiding(g, (steps - 1) as nat, x, a) || exists|q: int|
            #![trigger g.edge(q, x)]
            reach_avoiding(g, (steps - 1) as nat, q, a) && g.edge(q, x)
    }
}

/// Every way from a root to `x` passes `a`.
pub open spec fn dominates(g: &ItemGraph, a: int, x: int) -> bool {
    forall|steps: nat| !#[trigger] reach_avoiding(g, steps, x, a)
}

/// The items that `x` keeps alive directly among the forest positions from
/// `from` on, by their retained sizes.
pub open spec fn child_sum(t: &Traversal, up: Seq<usize>, ret: Seq<u64>, x: int, from: int) -> int
    decreases t.order@.len() - from,
{
    if from < 0 || from >= t.order@.len() {
        0
    } else {
        let c = t.order@[from] as int;
        (if up[c] == x {
            ret[c] as int
        } else {
            0
        }) + child_sum(t, up, ret, x, from + 1)
    }
}

/// The dominator forest of the alive items, with retained sizes.
pub struct DominatorForest {
    /// The immediate dominator of each alive item, the item count standing
    /// for the supersource (roots, and items that no item dominates).
    pub up: Vec<usize>,
    /// Each alive item's own size plus the retained sizes of the items it
    /// immediately dominates.
    pub retained: Vec<u64>,
}

/// Sum of a sequence of integers.
pub open spec fn total(s: Seq<int>) -> int
    decreases s.len(),
{
    if s.len() == 0 {
        0
    } else {
        total(s.drop_last()) + s.last()
    }
}

proof fn lemma_total_update(s: Seq<int>, i: int, v: int)
    requires
        0 <= i < s.len(),
    ensures
        total(s.update(i, v)) == total(s) - s[i] + v,
    decreases s.len(),
{
    if i == s.len() - 1 {
        assert(s.update(i, v).drop_last() =~= s.drop_last());
    } else {
        lemma_total_update(s.drop_last(), i, v);
        assert(s.update(i, v).drop_last() =~= s.drop_last().update(i, v));
    }
}

proof fn lemma_total_bound(s: Seq<int>, i: int)
    requires
        0 <= i < s.len(),
        forall|j: int| 0 <= j < s.len() ==> s[j] >= 0,
    ensures
        0 <= s[i] <= total(s),
        total(s) >= 0,
    decreases s.len(),
{
    let r = s.drop_last();
    assert(total(s) == total(r) + s.last());
    assert forall|j: int| 0 <= j < r.len() implies r[j] >= 0 by {
        assert(r[j] == s[j]);
    }
    if i == s.len() - 1 {
        if s.len() > 1 {
            lemma_total_bound(r, 0);
        }
    } else {
        lemma_total_bound(r, i);
        assert(r[i] == s[i]);
    }
}

proof fn lemma_child_sum_frame(t: &Traversal, up: Seq<usize>, r1: Seq<u64>, r2: Seq<u64>, x: int, from: int)
    requires
        0 <= from,
        forall|k: int| from <= k < t.order@.len() ==> r1[t.order@[k] as int] == r2[t.order@[k] as int],
    ensures
        child_sum(t, up, r1, x, from) == child_sum(t, up, r2, x, from),
    decreases t.order@.len() - from,
{
    if from < t.order@.len() {
        lemma_child_sum_frame(t, up, r1, r2, x, from + 1);
    }
}

/// Following the links up from an alive item reaches the supersource, after
/// at most one step more than the item's traversal position.
pub proof fn lemma_links_reach_supersource(g: &ItemGraph, t: &Traversal, up: Seq<usize>, x: int, k: nat)
    requires
        g.wf(),
        t.complete(g),
        forest(g, t, up),
        0 <= x < g.len(),
        t.alive@[x],
        k > t.pos@[x],
    ensures
        ancestor(up, g.len() as int, x, k) == g.len(),
    decreases k,
{
    let p = up[x] as int;
    if p == g.len() {
        assert(ancestor(up, g.len() as int, p, (k - 1) as nat) == p);
    } else {
        lemma_links_reach_supersource(g, t, up, p, (k - 1) as nat);
    }
}

/// Sum of `vals` over the items at traversal positions below `k`.
pub open spec fn positions_sum(t: &Traversal, vals: Seq<u64>, k: int) -> int
    decreases k,
{
    if k <= 0 {
        0
    } else {
        positions_sum(t, vals, k - 1) + vals[t.order@[k - 1] as int]
    }
}

proof fn lemma_positions_sum_other(t: &Traversal, vals: Seq<u64>, p: int, v: u64, k: int)
    requires
        0 <= k <= t.order@.len(),
        0 <= p < vals.len(),
        forall|i: int| 0 <= i < k ==> t.order@[i] != p && t.order@[i] < vals.len(),
    ensures
        positions_sum(t, vals.update(p, v), k) == positions_sum(t, vals, k),
    decreases k,
{
    if k > 0 {
        lemma_positions_sum_other(t, vals, p, v, k - 1);
        assert(vals.update(p, v)[t.order@[k - 1] as int] == vals[t.order@[k - 1] as int]);
    }
}

proof fn lemma_positions_sum_update(t: &Traversal, vals: Seq<u64>, p: int, v: u64, j: int, k: int)
    requires
        0 <= j < k <= t.order@.len(),
        0 <= p < vals.len(),
        t.order@[j] == p,
        forall|i: int| 0 <= i < k ==> t.order@[i] < vals.len(),
        forall|i: int| 0 <= i < k && t.order@[i] == p ==> i == j,
    ensures
        positions_sum(t, vals.update(p, v), k) == positions_sum(t, vals, k) - vals[p] + v,
    decreases k,
{
    if k - 1 == j {
        lemma_positions_sum_other(t, vals, p, v, k - 1);
    } else {
        lemma_positions_sum_update(t, vals, p, v, j, k - 1);
    }
}

/// Retained size of every alive item: its own size plus the retained sizes
/// of the items whose link points to it, gathered from the last reached
/// item back to the first.
pub fn retained_sizes(g: &ItemGraph, t: &Traversal, up: &Vec<usize>) -> (ret: Vec<u64>)
    requires
        g.wf(),
        t.complete(g),
        forest(g, t, up@),
        g.len() < 0x1_0000_0000,
    ensures
        ret@.len() == g.len(),
        forall|x: int|
            0 <= x < g.len() && #[trigger] t.alive@[x] ==> ret@[x] == g.items@[x].size + child_sum(
                t,
                up@,
                ret@,
                x,
                0,
            ),
        child_sum(t, up@, ret@, g.len() as int, 0) == positions_sum(t, size_keys(g), t.order@.len() as int),
{
    let n = g.items.len();
    let mut ret: Vec<u64> = Vec::new();
    let ghost mut cnt: Seq<int> = Seq::empty();
    let mut i: usize = 0;
    while i < n
        invariant
            n == g.len(),
            i <= n,
            ret@.len() == i,
            cnt.len() == i,
            total(cnt) == i,
            forall|j: int| 0 <= j < i ==> cnt[j] == 1,
            forall|j: int| 0 <= j < i ==> ret@[j] == g.items@[j].size,
        decreases n - i,
    {
        let ghost r0 = ret@;
        ret.push(g.items[i].size as u64);
        proof {
            let c0 = cnt;
            assert(c0.push(1).drop_last() =~= c0);
            cnt = c0.push(1);
            assert forall|j: int| 0 <= j < i + 1 implies cnt[j] == 1 && ret@[j] == g.items@[j].size by {
                if j < i {
                    assert(cnt[j] == c0[j]);
                    assert(ret@[j] == r0[j]);
                }
            }
        }
        i += 1;
    }
    let mut k: usize = t.order.len();
    let ghost mut top: int = 0;
    proof {
        assert forall|j: int| 0 <= j < n implies ret@[j] == size_keys(g)[j] by {
            assert(ret@[j] == g.items@[j].size);
        }
        assert(ret@ =~= size_keys(g));
        assert forall|y: int| 0 <= y < n && #[trigger] t.alive@[y] implies ret@[y] == g.items@[y].size
            + child_sum(t, up@, ret@, y, k as int) && ret@[y] <= cnt[y] * 0xFFFF_FFFF by {
            assert(cnt[y] == 1);
        }
    }
    while k > 0
        invariant
            n == g.len(),
            n < 0x1_0000_0000,
            g.wf(),
            t.complete(g),
            forest(g, t, up@),
            k <= t.order@.len(),
            ret@.len() == n,
            cnt.len() == n,
            forall|j: int| 0 <= j < n ==> cnt[j] >= 0,
            total(cnt) <= n,
            positions_sum(t, ret@, k as int) + top == positions_sum(t, size_keys(g), t.order@.len() as int),
            top == child_sum(t, up@, ret@, n as int, k as int),
            forall|y: int|
                0 <= y < n && #[trigger] t.alive@[y] ==> ret@[y] == g.items@[y].size + child_sum(
                    t,
                    up@,
                    ret@,
                    y,
                    k as int,
                ),
            forall|y: int|
                0 <= y < n && #[trigger] t.alive@[y] && t.pos@[y] < k ==> ret@[y] <= cnt[y] * 0xFFFF_FFFF,
        decreases k,
    {
        k -= 1;
        let x = t.order[k];
        let p = up[x];
        let ghost r0 = ret@;
        proof {
            assert(t.alive@[x as int]);
            assert(t.pos@[x as int] == k);
        }
        if p < n {
            proof {
                assert(t.alive@[p as int]);
                let c2 = cnt.update(p as int, cnt[p as int] + cnt[x as int]).update(x as int, 0);
                lemma_total_update(cnt, p as int, cnt[p as int] + cnt[x as int]);
                lemma_total_update(cnt.update(p as int, cnt[p as int] + cnt[x as int]), x as int, 0);
                lemma_total_bound(c2, p as int);
                assert(c2[p as int] * 0xFFFF_FFFF <= n * 0xFFFF_FFFF) by (nonlinear_arith)
                    requires
                        c2[p as int] <= n,
                        n < 0x1_0000_0000,
                ;
                assert(cnt[p as int] * 0xFFFF_FFFF + cnt[x as int] * 0xFFFF_FFFF == c2[p as int] * 0xFFFF_FFFF) by (nonlinear_arith)
                    requires
                        c2[p as int] == cnt[p as int] + cnt[x as int],
                ;
                cnt = c2;
            }
            let v = ret[p] + ret[x];
            proof {
                assert forall|i: int| 0 <= i < k + 1 && t.order@[i] == p implies i == t.pos@[p as int] by {
                    assert(t.pos@[t.order@[i] as int] == i);
                }
                assert(t.order@[t.pos@[p as int] as int] == p);
                lemma_positions_sum_update(t, ret@, p as int, v, t.pos@[p as int] as int, k as int);
            }
            ret.set(p, v);
        } else {
            proof {
                top = top + ret@[x as int];
            }
        }
        proof {
            assert forall|j: int| k + 1 <= j < t.order@.len() implies ret@[t.order@[j] as int] == r0[t.order@[j] as int] by {
                let c = t.order@[j] as int;
                assert(t.pos@[c] == j);
            }
            assert forall|y: int|
                0 <= y < n && #[trigger] t.alive@[y] implies ret@[y] == g.items@[y].size + child_sum(
                    t,
                    up@,
                    ret@,
                    y,
                    k as int,
                ) by {
                lemma_child_sum_frame(t, up@, ret@, r0, y, k + 1);
            }
            lemma_child_sum_frame(t, up@, ret@, r0, n as int, k + 1);
            assert(ret@[x as int] == r0[x as int]);
        }
    }
    ret
}

/// What the dominator computation establishes: the links form a forest over
/// the supersource; the link of each alive non-root item dominates it (every
/// way from a root passes it) and lies below every other item that
/// dominates it, so it is the immediate dominator, and an item that no item
/// dominates hangs from the supersource; each retained size is the item's
/// own size plus those of the items it immediately dominates; and the items
/// hanging from the supersource retain, together, the size of all alive
/// items, each counted once.
pub open spec fn dominance(g: &ItemGraph, t: &Traversal, up: Seq<usize>, ret: Seq<u64>) -> bool {
    &&& forest(g, t, up)
    &&& forall|x: int|
        0 <= x < g.len() && #[trigger] t.alive@[x] && up[x] < g.len() ==> dominates(g, up[x] as int, x)
    &&& forall|x: int, a: int|
        0 <= x < g.len() && t.alive@[x] && 0 <= a < g.len() && a != x && #[trigger] dominates(g, a, x)
            ==> up[x] < g.len() && is_ancestor(up, g.len() as int, a, up[x] as int)
    &&& ret.len() == g.len()
    &&& forall|x: int|
        0 <= x < g.len() && #[trigger] t.alive@[x] ==> ret[x] == g.items@[x].size + child_sum(t, up, ret, x, 0)
    &&& child_sum(t, up, ret, g.len() as int, 0) == positions_sum(t, size_keys(g), t.order@.len() as int)
}

/// An alive non-root item that no other item dominates hangs from the
/// supersource: an item shared by roots that neither dominates sits under
/// neither root, and its size counts in neither root's retained size.
pub proof fn lemma_undominated_under_supersource(g: &ItemGraph, t: &Traversal, up: Seq<usize>, ret: Seq<u64>, x: int)
    requires
        g.wf(),
        t.complete(g),
        dominance(g, t, up, ret),
        0 <= x < g.len(),
        t.alive@[x],
        !g.is_root(x),
        forall|a: int| 0 <= a < g.len() && a != x ==> !#[trigger] dominates(g, a, x),
    ensures
        up[x] == g.len(),
{
    if up[x] < g.len() {
        assert(dominates(g, up[x] as int, x));
        assert(t.pos@[up[x] as int] < t.pos@[x]);
    }
}

proof fn lemma_ancestor_reached_earlier(g: &ItemGraph, t: &Traversal, up: Seq<usize>, y: int, k: nat)
    requires
        t.complete(g),
        forest(g, t, up),
        0 <= y < g.len(),
        t.alive@[y],
        ancestor(up, g.len() as int, y, k) < g.len(),
    ensures
        t.alive@[ancestor(up, g.len() as int, y, k)],
        t.pos@[ancestor(up, g.len() as int, y, k)] <= t.pos@[y],
    decreases k,
{
    assert(t.alive@[y]);
    if k > 0 {
        assert(ancestor(up, g.len() as int, y, k) == ancestor(up, g.len() as int, up[y] as int, (k - 1) as nat));
        if up[y] < g.len() {
            lemma_ancestor_reached_earlier(g, t, up, up[y] as int, (k - 1) as nat);
        } else {
            assert(ancestor(up, g.len() as int, g.len() as int, (k - 1) as nat) == g.len());
        }
    }
}

/// The links are fixed by what `dominance` states: two results that meet it
/// link every alive item alike.
pub proof fn lemma_links_unique(
    g: &ItemGraph,
    t: &Traversal,
    up1: Seq<usize>,
    ret1: Seq<u64>,
    up2: Seq<usize>,
    ret2: Seq<u64>,
    x: int,
)
    requires
        t.complete(g),
        dominance(g, t, up1, ret1),
        dominance(g, t, up2, ret2),
        0 <= x < g.len(),
        t.alive@[x],
    ensures
        up1[x] == up2[x],
{
    let n = g.len() as int;
    if up1[x] < n {
        let d1 = up1[x] as int;
        assert(dominates(g, d1, x));
        assert(t.pos@[d1] < t.pos@[x]);
        let d2 = up2[x] as int;
        let k2 = choose|k: nat| ancestor(up2, n, d2, k) == d1;
        lemma_ancestor_reached_earlier(g, t, up2, d2, k2);
        assert(dominates(g, d2, x));
        assert(t.pos@[d2] < t.pos@[x]);
        let k1 = choose|k: nat| ancestor(up1, n, d1, k) == d2;
        lemma_ancestor_reached_earlier(g, t, up1, d1, k1);
        assert(t.order@[t.pos@[d1] as int] == d1);
        assert(t.order@[t.pos@[d2] as int] == d2);
    } else if up2[x] < n {
        let d2 = up2[x] as int;
        assert(dominates(g, d2, x));
        assert(t.pos@[d2] < t.pos@[x]);
    }
}

proof fn lemma_child_sum_same(t: &Traversal, up: Seq<usize>, r1: Seq<u64>, r2: Seq<u64>, x: int, from: int)
    requires
        0 <= from,
        forall|i: int|
            from <= i < t.order@.len() && up[#[trigger] t.order@[i] as int] == x ==> r1[t.order@[i] as int]
                == r2[t.order@[i] as int],
    ensures
        child_sum(t, up, r1, x, from) == child_sum(t, up, r2, x, from),
    decreases t.order@.len() - from,
{
    if from < t.order@.len() {
        lemma_child_sum_same(t, up, r1, r2, x, from + 1);
    }
}

/// Retained sizes are fixed by the links: two results that meet `dominance`
/// with the same links give every alive item the same retained size.
pub proof fn lemma_retained_unique(g: &ItemGraph, t: &Traversal, up: Seq<usize>, r1: Seq<u64>, r2: Seq<u64>, x: int)
    requires
        t.complete(g),
        dominance(g, t, up, r1),
        dominance(g, t, up, r2),
        0 <= x < g.len(),
        t.alive@[x],
    ensures
        r1[x] == r2[x],
    decreases t.order@.len() - t.pos@[x],
{
    assert forall|i: int|
        0 <= i < t.order@.len() && up[#[trigger] t.order@[i] as int] == x implies r1[t.order@[i] as int]
            == r2[t.order@[i] as int] by {
        let c = t.order@[i] as int;
        assert(t.alive@[c] && t.pos@[c] == i);
        assert(t.pos@[x] < t.pos@[c]);
        lemma_retained_unique(g, t, up, r1, r2, c);
    }
    lemma_child_sum_same(t, up, r1, r2, x, 0);
}

/// The dominator forest of the alive items of `g` and their retained sizes.
pub fn dominators(g: &ItemGraph, t: &Traversal) -> (d: DominatorForest)
    requires
        g.wf(),
        t.complete(g),
        g.len() < 0x1_0000_0000,
    ensures
        dominance(g, t, d.up@, d.retained@),
{
    let up = immediate_dominators(g, t);
    proof {
        lemma_idom_forest(g, t, up@);
    }
    let retained = retained_sizes(g, t, &up);
    proof {
        assert forall|x: int|
            0 <= x < g.len() && #[trigger] t.alive@[x] && up@[x] < g.len() implies dominates(g, up@[x] as int, x) by {
            assert(latest_dominator(g, t, up@, x, g.len() as int));
        }
        assert forall|x: int, a: int|
            0 <= x < g.len() && t.alive@[x] && 0 <= a < g.len() && a != x && #[trigger] dominates(g, a, x)
                implies up@[x] < g.len() && is_ancestor(up@, g.len() as int, a, up@[x] as int) by {
            lemma_idom_nearest(g, t, up@, x, a);
        }
    }
    DominatorForest { up, retained }
}

} // verus!
