use vstd::prelude::*;
use vstd::set_lib::*;
use crate::graph::{in_row, ItemGraph};

verus! {

/// The outcome of a traversal from the roots: which items are alive, the
/// order in which they were reached, and for each one the item it was
/// first reached from (the item count for a root).
pub struct Traversal {
    pub alive: Vec<bool>,
    pub order: Vec<usize>,
    pub pos: Vec<usize>,
    pub parent: Vec<usize>,
}

impl Traversal {
    /// Bookkeeping that holds at every step of the traversal.
    pub open spec fn consistent(&self, g: &ItemGraph) -> bool {
        let n = g.len();
        &&& self.alive@.len() == n
        &&& self.pos@.len() == n
        &&& self.parent@.len() == n
        &&& self.order@.len() <= n
        &&& forall|i: int|
            0 <= i < n && #[trigger] self.alive@[i] ==> self.pos@[i] < self.order@.len()
                && self.order@[self.pos@[i] as int] == i
        &&& forall|k: int|
            0 <= k < self.order@.len() ==> #[trigger] self.order@[k] < n && self.alive@[self.order@[k] as int]
                && self.pos@[self.order@[k] as int] == k
        &&& forall|i: int| 0 <= i < n && #[trigger] self.alive@[i] ==> g.reachable(i)
        &&& forall|i: int|
            0 <= i < n && #[trigger] self.alive@[i] ==> {
                ||| self.parent@[i] == n && g.is_root(i)
                ||| {
                    &&& self.parent@[i] < n
                    &&& !g.is_root(i)
                    &&& self.alive@[self.parent@[i] as int]
                    &&& self.pos@[self.parent@[i] as int] < self.pos@[i]
                    &&& g.edge(self.parent@[i] as int, i)
                }
            }
    }

    /// A finished traversal: an item is alive exactly when it is reachable.
    pub open spec fn complete(&self, g: &ItemGraph) -> bool {
        &&& self.consistent(g)
        &&& self.order@.len() <= g.len()
        &&& forall|i: int| 0 <= i < g.len() ==> (#[trigger] self.alive@[i] <==> g.reachable(i))
    }
}

/// Alive and garbage items, as sets of ids.
pub open spec fn alive_set(alive: Seq<bool>) -> Set<int> {
    Set::new(|i: int| 0 <= i < alive.len() && alive[i])
}

pub open spec fn garbage_set(alive: Seq<bool>) -> Set<int> {
    Set::new(|i: int| 0 <= i < alive.len() && !alive[i])
}

/// Every item is alive or garbage, never both.
pub proof fn lemma_partition(g: &ItemGraph, t: &Traversal)
    requires
        t.complete(g),
    ensures
        alive_set(t.alive@).union(garbage_set(t.alive@)) == set_int_range(0, g.len() as int),
        alive_set(t.alive@).disjoint(garbage_set(t.alive@)),
        forall|i: int| alive_set(t.alive@).contains(i) <==> 0 <= i < g.len() && g.reachable(i),
{
    assert(alive_set(t.alive@).union(garbage_set(t.alive@)) =~= set_int_range(0, g.len() as int));
}

proof fn lemma_reach_step(g: &ItemGraph, u: int, s: int)
    requires
        g.reachable(u),
        g.edge(u, s),
    ensures
        g.reachable(s),
{
    let st = choose|st: nat| g.reach_within(st, u);
    assert(g.reach_within(st + 1, s));
}

proof fn lemma_closed_complete(g: &ItemGraph, alive: Seq<bool>, steps: nat, x: int)
    requires
        g.wf(),
        alive.len() == g.len(),
        forall|k: int| 0 <= k < g.roots@.len() ==> alive[g.roots@[k] as int],
        forall|a: int, b: int| 0 <= a < g.len() && alive[a] && #[trigger] g.edge(a, b) ==> alive[b],
        g.reach_within(steps, x),
    ensures
        0 <= x < g.len() && alive[x],
    decreases steps,
{
    if steps == 0 {
        let k = choose|k: int| 0 <= k < g.roots@.len() && g.roots@[k] == x;
    } else if g.reach_within((steps - 1) as nat, x) {
        lemma_closed_complete(g, alive, (steps - 1) as nat, x);
    } else {
        let p = choose|p: int| g.reach_within((steps - 1) as nat, p) && g.edge(p, x);
        lemma_closed_complete(g, alive, (steps - 1) as nat, p);
        let k = choose|k: int| 0 <= k < g.adj@[p]@.len() && g.adj@[p]@[k] == x;
    }
}

/// Marks `s`, reached from `from` (the item count for a root).
fn visit(g: &ItemGraph, t: &mut Traversal, s: usize, from: usize, Ghost(marked): Ghost<Set<int>>) -> (r: Ghost<Set<int>>)
    requires
        g.wf(),
        old(t).consistent(g),
        s < g.len(),
        !old(t).alive@[s as int],
        g.reachable(s as int),
        from <= g.len(),
        from == g.len() ==> g.is_root(s as int),
        from < g.len() ==> !g.is_root(s as int) && old(t).alive@[from as int] && g.edge(from as int, s as int),
        marked.finite(),
        marked.len() == old(t).order@.len(),
        forall|i: int| marked.contains(i) <==> 0 <= i < g.len() && old(t).alive@[i],
    ensures
        final(t).consistent(g),
        final(t).order@ == old(t).order@.push(s),
        final(t).alive@ == old(t).alive@.update(s as int, true),
        r@.finite(),
        r@.len() == final(t).order@.len(),
        forall|i: int| r@.contains(i) <==> 0 <= i < g.len() && final(t).alive@[i],
{
    let n = g.items.len();
    let ghost m2 = marked.insert(s as int);
    proof {
        lemma_int_range(0, n as int);
        assert(m2.subset_of(set_int_range(0, n as int)));
        lemma_len_subset(m2, set_int_range(0, n as int));
    }
    let ghost t0 = t.pos@;
    t.alive.set(s, true);
    t.pos.set(s, t.order.len());
    t.parent.set(s, from);
    t.order.push(s);
    proof {
        let tt = &*t;
        assert forall|i: int| 0 <= i < n && #[trigger] tt.alive@[i] implies tt.pos@[i] < tt.order@.len()
            && tt.order@[tt.pos@[i] as int] == i by {
            if i != s {
                assert(old(t).alive@[i]);
            }
        }
        assert forall|k: int| 0 <= k < tt.order@.len() implies #[trigger] tt.order@[k] < n && tt.alive@[tt.order@[k] as int]
            && tt.pos@[tt.order@[k] as int] == k by {
            if k < old(t).order@.len() {
                assert(old(t).alive@[old(t).order@[k] as int]);
            }
        }
        assert forall|i: int| 0 <= i < n && #[trigger] tt.alive@[i] implies g.reachable(i) by {
            if i != s {
                assert(old(t).alive@[i]);
            }
        }
        assert forall|i: int| 0 <= i < n && #[trigger] tt.alive@[i] implies {
                ||| tt.parent@[i] == n && g.is_root(i)
                ||| {
                    &&& tt.parent@[i] < n
                    &&& !g.is_root(i)
                    &&& tt.alive@[tt.parent@[i] as int]
                    &&& tt.pos@[tt.parent@[i] as int] < tt.pos@[i]
                    &&& g.edge(tt.parent@[i] as int, i)
                }
            } by {
            if i != s {
                assert(old(t).alive@[i]);
                let p = old(t).parent@[i];
                if p < n {
                    assert(old(t).alive@[p as int]);
                    assert(p != s);
                    assert(tt.pos@[p as int] == old(t).pos@[p as int]);
                    assert(tt.pos@[i] == old(t).pos@[i]);
                    assert(tt.parent@[i] == p);
                    assert(tt.alive@[p as int]);
                    assert(g.edge(p as int, i));
                    assert(!g.is_root(i));
                } else {
                    assert(tt.parent@[i] == n);
                    assert(g.is_root(i));
                }
            } else if from < n {
                assert(old(t).alive@[from as int]);
                assert(old(t).pos@[from as int] < old(t).order@.len());
                assert(from != s);
                assert(tt.parent@[i] == from);
                assert(tt.pos@[from as int] < tt.pos@[i]);
                assert(tt.alive@[from as int]);
            } else {
                assert(tt.parent@[i] == n);
                assert(g.is_root(i));
            }
        }
    }
    Ghost(m2)
}

/// Traverses the graph from its roots.
pub fn traverse(g: &ItemGraph) -> (t: Traversal)
    requires
        g.wf(),
    ensures
        t.complete(g),
{
    let n = g.items.len();
    let mut t = Traversal {
        alive: Vec::new(),
        order: Vec::new(),
        pos: Vec::new(),
        parent: Vec::new(),
    };
    let mut i: usize = 0;
    while i < n
        invariant
            i <= n,
            n == g.len(),
            t.alive@.len() == i,
            t.pos@.len() == i,
            t.parent@.len() == i,
            t.order@.len() == 0,
            forall|k: int| 0 <= k < i ==> !t.alive@[k],
        decreases n - i,
    {
        t.alive.push(false);
        t.pos.push(n);
        t.parent.push(n);
        i += 1;
    }
    let ghost mut marked: Set<int> = Set::empty();
    let mut r: usize = 0;
    while r < g.roots.len()
        invariant
            g.wf(),
            n == g.len(),
            r <= g.roots@.len(),
            t.consistent(g),
            marked.finite(),
            marked.len() == t.order@.len(),
            forall|i: int| marked.contains(i) <==> 0 <= i < n && t.alive@[i],
            forall|k: int| 0 <= k < r ==> t.alive@[g.roots@[k] as int],
            forall|k: int| 0 <= k < t.order@.len() ==> g.is_root(#[trigger] t.order@[k] as int),
        decreases g.roots@.len() - r,
    {
        let s = g.roots[r];
        if !t.alive[s] {
            assert(g.reach_within(0, s as int));
            let ghost o = t.order@;
            let Ghost(m) = visit(g, &mut t, s, n, Ghost(marked));
            proof {
                marked = m;
                assert forall|k: int| 0 <= k < t.order@.len() implies g.is_root(#[trigger] t.order@[k] as int) by {
                    if k < o.len() {
                        assert(g.is_root(o[k] as int));
                    }
                }
            }
        }
        r += 1;
    }
    let mut head: usize = 0;
    while head < t.order.len()
        invariant
            g.wf(),
            n == g.len(),
            t.consistent(g),
            head <= t.order@.len(),
            marked.finite(),
            marked.len() == t.order@.len(),
            forall|i: int| marked.contains(i) <==> 0 <= i < n && t.alive@[i],
            forall|k: int| 0 <= k < g.roots@.len() ==> t.alive@[g.roots@[k] as int],
            forall|k: int, s: int| 0 <= k < head && #[trigger] g.edge(t.order@[k] as int, s) ==> t.alive@[s],
        decreases n - head,
    {
        let u = t.order[head];
        let row = &g.adj[u];
        let mut j: usize = 0;
        while j < row.len()
            invariant
                g.wf(),
                n == g.len(),
                row@ == g.adj@[u as int]@,
                u < n,
                t.alive@[u as int],
                t.consistent(g),
                head < t.order@.len(),
                t.order@[head as int] == u,
                j <= row@.len(),
                marked.finite(),
                marked.len() == t.order@.len(),
                forall|i: int| marked.contains(i) <==> 0 <= i < n && t.alive@[i],
                forall|k: int| 0 <= k < g.roots@.len() ==> t.alive@[g.roots@[k] as int],
                forall|k: int, s: int| 0 <= k < head && #[trigger] g.edge(t.order@[k] as int, s) ==> t.alive@[s],
                forall|k: int| 0 <= k < j ==> t.alive@[#[trigger] row@[k] as int],
            decreases row@.len() - j,
        {
            let s = row[j];
            if !t.alive[s] {
                assert(in_row(g.adj@[u as int]@, s as int));
                proof {
                    lemma_reach_step(g, u as int, s as int);
                    if g.is_root(s as int) {
                        let k = choose|k: int| 0 <= k < g.roots@.len() && g.roots@[k] == s;
                    }
                }
                let ghost o = t.order@;
                let ghost a0 = t.alive@;
                let Ghost(m) = visit(g, &mut t, s, u, Ghost(marked));
                proof {
                    marked = m;
                    assert forall|k: int, s2: int| 0 <= k < head && #[trigger] g.edge(t.order@[k] as int, s2) implies t.alive@[s2] by {
                        assert(o[k] == t.order@[k]);
                        assert(a0[s2]);
                    }
                    assert forall|k: int| 0 <= k < j implies t.alive@[#[trigger] row@[k] as int] by {
                        assert(a0[row@[k] as int]);
                    }
                }
            }
            j += 1;
        }
        proof {
            assert forall|k: int, s: int| 0 <= k < head + 1 && #[trigger] g.edge(t.order@[k] as int, s) implies t.alive@[s] by {
                if k == head {
                    let x = choose|x: int| 0 <= x < row@.len() && row@[x] == s;
                }
            }
        }
        head += 1;
    }
    proof {
        assert forall|a: int, b: int| 0 <= a < g.len() && t.alive@[a] && #[trigger] g.edge(a, b) implies t.alive@[b] by {
            let k = t.pos@[a] as int;
            assert(t.order@[k] == a);
        }
        assert forall|i: int| 0 <= i < g.len() implies (#[trigger] t.alive@[i] <==> g.reachable(i)) by {
            if g.reachable(i) {
                let st = choose|st: nat| g.reach_within(st, i);
                lemma_closed_complete(g, t.alive@, st, i);
            }
        }
    }
    t
}

} // verus!
