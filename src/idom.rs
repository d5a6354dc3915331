use vstd::prelude::*;
use crate::dominators::{ancestor, dominates, forest, is_ancestor, reach_avoiding};
use crate::graph::{in_row, Item, ItemGraph, ItemKind};
use crate::reach::{traverse, Traversal};

verus! {

/// The graph with item `a` taken out: no root is `a`, and no reference
/// leads to or from it. Only the shape is kept.
fn without(g: &ItemGraph, a: usize) -> (h: ItemGraph)
    requires
        g.wf(),
        a < g.len(),
    ensures
        h.wf(),
        h.len() == g.len(),
        forall|y: int| #[trigger] h.is_root(y) <==> g.is_root(y) && y != a,
        forall|p: int, y: int|
            0 <= p < g.len() ==> (#[trigger] h.edge(p, y) <==> g.edge(p, y) && y != a && p != a),
{
    let n = g.items.len();
    let mut items: Vec<Item> = Vec::new();
    let mut adj: Vec<Vec<usize>> = Vec::new();
    let mut p: usize = 0;
    while p < n
        invariant
            n == g.len(),
            g.wf(),
            a < n,
            p <= n,
            items@.len() == p,
            adj@.len() == p,
            forall|x: int, k: int| 0 <= x < p && 0 <= k < adj@[x]@.len() ==> adj@[x]@[k] < n,
            forall|x: int, y: int|
                0 <= x < p ==> (#[trigger] in_row(adj@[x]@, y) <==> in_row(g.adj@[x]@, y) && y != a && x != a),
        decreases n - p,
    {
        items.push(Item { name: String::new(), kind: ItemKind::Other, size: 0 });
        let mut row: Vec<usize> = Vec::new();
        if p != a {
            let mut j: usize = 0;
            while j < g.adj[p].len()
                invariant
                    n == g.len(),
                    g.wf(),
                    p < n,
                    a < n,
                    j <= g.adj@[p as int]@.len(),
                    forall|k: int| 0 <= k < row@.len() ==> row@[k] < n,
                    forall|y: int|
                        #[trigger] in_row(row@, y) <==> (exists|k: int|
                            0 <= k < j && g.adj@[p as int]@[k] == y) && y != a,
                decreases g.adj@[p as int]@.len() - j,
            {
                let s = g.adj[p][j];
                let ghost r0 = row@;
                if s != a {
                    row.push(s);
                }
                proof {
                    assert forall|y: int|
                        #[trigger] in_row(row@, y) <==> (exists|k: int|
                            0 <= k < j + 1 && g.adj@[p as int]@[k] == y) && y != a by {
                        if in_row(row@, y) {
                            let w = choose|w: int| 0 <= w < row@.len() && row@[w] == y;
                            if w < r0.len() {
                                assert(r0[w] == y);
                                assert(in_row(r0, y));
                            } else {
                                assert(g.adj@[p as int]@[j as int] == y);
                            }
                        }
                        if (exists|k: int| 0 <= k < j + 1 && g.adj@[p as int]@[k] == y) && y != a {
                            let k = choose|k: int| 0 <= k < j + 1 && g.adj@[p as int]@[k] == y;
                            if k < j {
                                assert(in_row(r0, y));
                                let w = choose|w: int| 0 <= w < r0.len() && r0[w] == y;
                                assert(row@[w] == y);
                            } else {
                                assert(row@[r0.len() as int] == y);
                            }
                        }
                    }
                }
                j += 1;
            }
            proof {
                assert forall|y: int| #[trigger] in_row(row@, y) <==> in_row(g.adj@[p as int]@, y) && y != a by {
                }
            }
        } else {
            proof {
                assert forall|y: int| #[trigger] in_row(row@, y) <==> in_row(g.adj@[p as int]@, y) && y != a && p != a by {
                }
            }
        }
        let ghost a0 = adj@;
        adj.push(row);
        proof {
            assert forall|x: int, y: int|
                0 <= x < p + 1 implies (#[trigger] in_row(adj@[x]@, y) <==> in_row(g.adj@[x]@, y) && y != a && x != a) by {
                if x < p {
                    assert(adj@[x] == a0[x]);
                }
            }
            assert forall|x: int, k: int| 0 <= x < p + 1 && 0 <= k < adj@[x]@.len() implies adj@[x]@[k] < n by {
                if x < p {
                    assert(adj@[x] == a0[x]);
                }
            }
        }
        p += 1;
    }
    let mut roots: Vec<usize> = Vec::new();
    let mut r: usize = 0;
    while r < g.roots.len()
        invariant
            n == g.len(),
            g.wf(),
            r <= g.roots@.len(),
            forall|k: int| 0 <= k < roots@.len() ==> roots@[k] < n,
            forall|y: int|
                #[trigger] in_row(roots@, y) <==> (exists|k: int| 0 <= k < r && g.roots@[k] == y) && y != a,
        decreases g.roots@.len() - r,
    {
        let s = g.roots[r];
        let ghost r0 = roots@;
        if s != a {
            roots.push(s);
        }
        proof {
            assert forall|y: int|
                #[trigger] in_row(roots@, y) <==> (exists|k: int| 0 <= k < r + 1 && g.roots@[k] == y) && y != a by {
                if in_row(roots@, y) {
                    let w = choose|w: int| 0 <= w < roots@.len() && roots@[w] == y;
                    if w < r0.len() {
                        assert(r0[w] == y);
                        assert(in_row(r0, y));
                    } else {
                        assert(g.roots@[r as int] == y);
                    }
                }
                if (exists|k: int| 0 <= k < r + 1 && g.roots@[k] == y) && y != a {
                    let k = choose|k: int| 0 <= k < r + 1 && g.roots@[k] == y;
                    if k < r {
                        assert(in_row(r0, y));
                        let w = choose|w: int| 0 <= w < r0.len() && r0[w] == y;
                        assert(roots@[w] == y);
                    } else {
                        assert(roots@[r0.len() as int] == y);
                    }
                }
            }
        }
        r += 1;
    }
    let h = ItemGraph { items, adj, roots };
    proof {
        assert forall|y: int| #[trigger] h.is_root(y) <==> g.is_root(y) && y != a by {
            if h.is_root(y) {
                let w = choose|w: int| 0 <= w < h.roots@.len() && h.roots@[w] == y;
                assert(in_row(roots@, y));
                let k = choose|k: int| 0 <= k < g.roots@.len() && g.roots@[k] == y;
            }
            if g.is_root(y) && y != a {
                let k = choose|k: int| 0 <= k < g.roots@.len() && g.roots@[k] == y;
                assert(in_row(roots@, y));
                let w = choose|w: int| 0 <= w < roots@.len() && roots@[w] == y;
                assert(h.roots@[w] == y);
            }
        }
    }
    h
}


proof fn lemma_without_reach(g: &ItemGraph, h: &ItemGraph, a: int, s: nat, y: int)
    requires
        g.wf(),
        h.wf(),
        h.len() == g.len(),
        forall|y: int| #[trigger] h.is_root(y) <==> g.is_root(y) && y != a,
        forall|p: int, y: int|
            0 <= p < g.len() ==> (#[trigger] h.edge(p, y) <==> g.edge(p, y) && y != a && p != a),
    ensures
        h.reach_within(s, y) <==> reach_avoiding(g, s, y, a),
    decreases s,
{
    if s > 0 {
        lemma_without_reach(g, h, a, (s - 1) as nat, y);
        if h.reach_within(s, y) && !h.reach_within((s - 1) as nat, y) {
            let p = choose|p: int| h.reach_within((s - 1) as nat, p) && h.edge(p, y);
            lemma_without_reach(g, h, a, (s - 1) as nat, p);
            assert(g.edge(p, y));
        }
        if reach_avoiding(g, s, y, a) && !reach_avoiding(g, (s - 1) as nat, y, a) {
            let q = choose|q: int| reach_avoiding(g, (s - 1) as nat, q, a) && g.edge(q, y);
            lemma_without_reach(g, h, a, (s - 1) as nat, q);
            assert(h.edge(q, y));
        }
    }
}

/// The item reached from `y` after `k` steps along first-reached referrers,
/// stopping at a root.
pub open spec fn pchain(t: &Traversal, n: int, y: int, k: nat) -> int
    decreases k,
{
    if k == 0 || t.parent@[y] >= n {
        y
    } else {
        pchain(t, n, t.parent@[y] as int, (k - 1) as nat)
    }
}

proof fn lemma_pchain(g: &ItemGraph, t: &Traversal, y: int, k: nat)
    requires
        t.complete(g),
        0 <= y < g.len(),
        t.alive@[y],
    ensures
        0 <= pchain(t, g.len() as int, y, k) < g.len(),
        t.alive@[pchain(t, g.len() as int, y, k)],
        t.pos@[pchain(t, g.len() as int, y, k)] <= t.pos@[y],
        pchain(t, g.len() as int, y, k) != y ==> t.pos@[pchain(t, g.len() as int, y, k)] < t.pos@[y],
    decreases k,
{
    if k > 0 && t.parent@[y] < g.len() {
        lemma_pchain(g, t, t.parent@[y] as int, (k - 1) as nat);
    }
}

proof fn lemma_avoid_mono(g: &ItemGraph, s: nat, d: nat, y: int, a: int)
    requires
        reach_avoiding(g, s, y, a),
    ensures
        reach_avoiding(g, s + d, y, a),
    decreases d,
{
    if d > 0 {
        lemma_avoid_mono(g, s, (d - 1) as nat, y, a);
        assert(reach_avoiding(g, (s + d) as nat, y, a));
    }
}

/// An item off the first-reached chain of `y` does not dominate `y`.
proof fn lemma_off_chain(g: &ItemGraph, t: &Traversal, y: int, a: int)
    requires
        g.wf(),
        t.complete(g),
        0 <= y < g.len(),
        t.alive@[y],
        forall|k: nat| pchain(t, g.len() as int, y, k) != a,
    ensures
        reach_avoiding(g, t.pos@[y] as nat, y, a),
    decreases t.pos@[y],
{
    let n = g.len() as int;
    assert(pchain(t, n, y, 0) == y);
    let p = t.parent@[y] as int;
    if p >= n {
        assert(g.is_root(y));
        assert(reach_avoiding(g, 0, y, a));
        lemma_avoid_mono(g, 0, t.pos@[y] as nat, y, a);
    } else {
        assert forall|k: nat| pchain(t, n, p, k) != a by {
            assert(pchain(t, n, y, k + 1) == pchain(t, n, p, k));
        }
        lemma_off_chain(g, t, p, a);
        lemma_avoid_mono(g, t.pos@[p] as nat, (t.pos@[y] - 1 - t.pos@[p]) as nat, p, a);
        let s1 = (t.pos@[y] - 1) as nat;
        assert(reach_avoiding(g, s1, p, a) && g.edge(p, y));
        assert(reach_avoiding(g, (s1 + 1) as nat, y, a));
    }
}

/// A dominator of an alive item lies on its first-reached chain, so it is
/// alive and reached before it.
proof fn lemma_dominator_on_chain(g: &ItemGraph, t: &Traversal, y: int, a: int)
    requires
        g.wf(),
        t.complete(g),
        0 <= y < g.len(),
        t.alive@[y],
        a != y,
        dominates(g, a, y),
    ensures
        exists|k: nat| pchain(t, g.len() as int, y, k) == a,
        0 <= a < g.len(),
        t.alive@[a],
        t.pos@[a] < t.pos@[y],
{
    let n = g.len() as int;
    if forall|k: nat| pchain(t, n, y, k) != a {
        lemma_off_chain(g, t, y, a);
        assert(!reach_avoiding(g, t.pos@[y] as nat, y, a));
    }
    let k = choose|k: nat| pchain(t, n, y, k) == a;
    lemma_pchain(g, t, y, k);
}

proof fn lemma_chain_suffix(g: &ItemGraph, t: &Traversal, y: int, k: nat, s: nat, a: int)
    requires
        g.wf(),
        t.complete(g),
        0 <= y < g.len(),
        t.alive@[y],
        0 <= a < g.len(),
        reach_avoiding(g, s, pchain(t, g.len() as int, y, k), a),
        t.pos@[a] < t.pos@[pchain(t, g.len() as int, y, k)],
    ensures
        exists|s2: nat| reach_avoiding(g, s2, y, a),
    decreases k,
{
    let n = g.len() as int;
    let p = t.parent@[y] as int;
    if k == 0 || p >= n {
    } else {
        assert(pchain(t, n, y, k) == pchain(t, n, p, (k - 1) as nat));
        lemma_pchain(g, t, y, k);
        assert(t.alive@[p] && g.edge(p, y));
        lemma_chain_suffix(g, t, p, (k - 1) as nat, s, a);
        let s2 = choose|s2: nat| reach_avoiding(g, s2, p, a);
        assert(y != a);
        assert(reach_avoiding(g, (s2 + 1) as nat, y, a));
    }
}

/// Of two dominators of an item, the one reached first dominates the other.
proof fn lemma_dominators_ordered(g: &ItemGraph, t: &Traversal, x: int, a: int, d: int)
    requires
        g.wf(),
        t.complete(g),
        0 <= x < g.len(),
        t.alive@[x],
        a != x,
        d != x,
        dominates(g, a, x),
        dominates(g, d, x),
        0 <= a < g.len(),
        0 <= d < g.len(),
        t.pos@[a] < t.pos@[d],
    ensures
        dominates(g, a, d),
{
    lemma_dominator_on_chain(g, t, x, d);
    let k = choose|k: nat| pchain(t, g.len() as int, x, k) == d;
    assert forall|s: nat| !#[trigger] reach_avoiding(g, s, d, a) by {
        if reach_avoiding(g, s, d, a) {
            lemma_chain_suffix(g, t, x, k, s, a);
            let s2 = choose|s2: nat| reach_avoiding(g, s2, x, a);
            assert(!reach_avoiding(g, s2, x, a));
        }
    }
}

/// `up[y]` is the latest-reached dominator of `y` among the items reached
/// before position `k`, or the supersource when there is none.
pub open spec fn latest_dominator(g: &ItemGraph, t: &Traversal, up: Seq<usize>, y: int, k: int) -> bool {
    &&& up[y] <= g.len()
    &&& up[y] < g.len() ==> dominates(g, up[y] as int, y) && up[y] != y && t.alive@[up[y] as int]
        && t.pos@[up[y] as int] < k
    &&& forall|a: int|
        0 <= a < g.len() && a != y && t.alive@[a] && t.pos@[a] < k && #[trigger] dominates(g, a, y)
            ==> up[y] < g.len() && t.pos@[a] <= t.pos@[up[y] as int]
}

/// What the links of `immediate_dominators` are.
pub open spec fn idom_links(g: &ItemGraph, t: &Traversal, up: Seq<usize>) -> bool {
    &&& up.len() == g.len()
    &&& forall|y: int| 0 <= y < g.len() && #[trigger] t.alive@[y] ==> latest_dominator(g, t, up, y, g.len() as int)
}

/// Links each alive item to its immediate dominator: for each alive item in
/// turn, the graph is traversed without it, and every alive item that is no
/// longer reached is dominated by it; the last such item found is the
/// nearest.
pub fn immediate_dominators(g: &ItemGraph, t: &Traversal) -> (up: Vec<usize>)
    requires
        g.wf(),
        t.complete(g),
    ensures
        idom_links(g, t, up@),
{
    let n = g.items.len();
    let mut up: Vec<usize> = Vec::new();
    let mut i: usize = 0;
    while i < n
        invariant
            i <= n,
            n == g.len(),
            up@.len() == i,
            forall|y: int| 0 <= y < i ==> up@[y] == n,
        decreases n - i,
    {
        up.push(n);
        i += 1;
    }
    let mut k: usize = 0;
    while k < t.order.len()
        invariant
            n == g.len(),
            g.wf(),
            t.complete(g),
            k <= t.order@.len(),
            up@.len() == n,
            forall|y: int| 0 <= y < n && #[trigger] t.alive@[y] ==> latest_dominator(g, t, up@, y, k as int),
        decreases t.order@.len() - k,
    {
        let a = t.order[k];
        proof {
            assert(t.alive@[a as int] && t.pos@[a as int] == k);
        }
        let h = without(g, a);
        let ta = traverse(&h);
        let mut y: usize = 0;
        while y < n
            invariant
                n == g.len(),
                g.wf(),
                t.complete(g),
                h.wf(),
                h.len() == n,
                ta.complete(&h),
                forall|y: int| #[trigger] h.is_root(y) <==> g.is_root(y) && y != a,
                forall|p: int, y: int|
                    0 <= p < g.len() ==> (#[trigger] h.edge(p, y) <==> g.edge(p, y) && y != a && p != a),
                k < t.order@.len(),
                a == t.order@[k as int],
                a < n,
                t.alive@[a as int],
                t.pos@[a as int] == k,
                y <= n,
                up@.len() == n,
                forall|z: int| 0 <= z < y && #[trigger] t.alive@[z] ==> latest_dominator(g, t, up@, z, k + 1),
                forall|z: int| y <= z < n && #[trigger] t.alive@[z] ==> latest_dominator(g, t, up@, z, k as int),
            decreases n - y,
        {
            let ghost u0 = up@;
            proof {
                assert(ta.alive@[y as int] <==> h.reachable(y as int));
                if h.reachable(y as int) {
                    let s = choose|s: nat| h.reach_within(s, y as int);
                    lemma_without_reach(g, &h, a as int, s, y as int);
                } else {
                    assert forall|s: nat| !#[trigger] reach_avoiding(g, s, y as int, a as int) by {
                        lemma_without_reach(g, &h, a as int, s, y as int);
                    }
                }
            }
            if t.alive[y] && y != a && !ta.alive[y] {
                up.set(y, a);
            }
            proof {
                assert forall|z: int| 0 <= z < y + 1 && #[trigger] t.alive@[z] implies latest_dominator(g, t, up@, z, k + 1) by {
                    if z < y {
                        assert(latest_dominator(g, t, u0, z, k + 1));
                        assert(up@[z] == u0[z]);
                    } else {
                        assert(latest_dominator(g, t, u0, z, k as int));
                        assert forall|b: int|
                            0 <= b < g.len() && b != z && t.alive@[b] && t.pos@[b] < k + 1 && #[trigger] dominates(g, b, z)
                                implies up@[z] < g.len() && t.pos@[b] <= t.pos@[up@[z] as int] by {
                            if t.pos@[b] == k {
                                assert(t.order@[t.pos@[b] as int] == b);
                            }
                        }
                    }
                }
                assert forall|z: int| y + 1 <= z < n && #[trigger] t.alive@[z] implies latest_dominator(g, t, up@, z, k as int) by {
                    assert(latest_dominator(g, t, u0, z, k as int));
                    assert(up@[z] == u0[z]);
                }
            }
            y += 1;
        }
        k += 1;
    }
    proof {
        assert forall|y: int| 0 <= y < n && #[trigger] t.alive@[y] implies latest_dominator(g, t, up@, y, n as int) by {
            assert(latest_dominator(g, t, up@, y, t.order@.len() as int));
            assert forall|b: int|
                0 <= b < g.len() && b != y && t.alive@[b] && t.pos@[b] < n && #[trigger] dominates(g, b, y)
                    implies up@[y] < g.len() && t.pos@[b] <= t.pos@[up@[y] as int] by {
                assert(t.pos@[b] < t.order@.len());
            }
        }
    }
    up
}

/// The links of `immediate_dominators` form a forest over the supersource.
pub proof fn lemma_idom_forest(g: &ItemGraph, t: &Traversal, up: Seq<usize>)
    requires
        g.wf(),
        t.complete(g),
        idom_links(g, t, up),
    ensures
        forest(g, t, up),
{
    assert forall|x: int| 0 <= x < g.len() && #[trigger] t.alive@[x] implies {
        &&& up[x] <= g.len()
        &&& up[x] < g.len() ==> t.alive@[up[x] as int] && t.pos@[up[x] as int] < t.pos@[x]
        &&& g.is_root(x) ==> up[x] == g.len()
    } by {
        assert(latest_dominator(g, t, up, x, g.len() as int));
        if up[x] < g.len() {
            lemma_dominator_on_chain(g, t, x, up[x] as int);
            if g.is_root(x) {
                assert(reach_avoiding(g, 0, x, up[x] as int));
            }
        }
    }
}

/// Every item other than `x` that dominates `x` lies above `x`'s link: the
/// link is the nearest dominator.
pub proof fn lemma_idom_nearest(g: &ItemGraph, t: &Traversal, up: Seq<usize>, x: int, a: int)
    requires
        g.wf(),
        t.complete(g),
        idom_links(g, t, up),
        0 <= x < g.len(),
        t.alive@[x],
        0 <= a < g.len(),
        a != x,
        dominates(g, a, x),
    ensures
        up[x] < g.len(),
        is_ancestor(up, g.len() as int, a, up[x] as int),
    decreases t.pos@[x],
{
    let n = g.len() as int;
    lemma_dominator_on_chain(g, t, x, a);
    assert(latest_dominator(g, t, up, x, n));
    let d = up[x] as int;
    if a == d {
        assert(ancestor(up, n, d, 0) == a);
    } else {
        assert(t.order@[t.pos@[a] as int] == a);
        assert(t.order@[t.pos@[d] as int] == d);
        lemma_dominators_ordered(g, t, x, a, d);
        lemma_dominator_on_chain(g, t, x, d);
        lemma_idom_nearest(g, t, up, d, a);
        let k = choose|k: nat| ancestor(up, n, up[d] as int, k) == a;
        assert(ancestor(up, n, d, k + 1) == ancestor(up, n, up[d] as int, k));
    }
}

} // verus!
