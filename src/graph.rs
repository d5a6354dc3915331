use vstd::prelude::*;

verus! {

/// What an item of a module is.
#[derive(Clone, Copy, Debug, PartialEq, Eq, Structural)]
pub enum ItemKind {
    Code,
    Data,
    Type,
    Other,
}

/// A named, sized unit of a module. Its id is its index in the graph.
#[derive(Clone, Debug)]
pub struct Item {
    pub name: String,
    pub kind: ItemKind,
    pub size: u32,
}

/// Errors of building or analysing a graph.
#[derive(Clone, Copy, Debug, PartialEq, Eq, Structural)]
pub enum AnalysisError {
    /// An edge or a root names an id that is not an item of the graph.
    GraphConsistency,
    /// A report could not be encoded as text.
    Serialization,
}

/// Items, references between them (adjacency by id) and the entry points.
pub struct ItemGraph {
    pub items: Vec<Item>,
    pub adj: Vec<Vec<usize>>,
    pub roots: Vec<usize>,
}

impl ItemGraph {
    pub open spec fn len(&self) -> nat {
        self.items@.len()
    }

    /// Every edge and every root names an item.
    pub open spec fn wf(&self) -> bool {
        &&& self.adj@.len() == self.items@.len()
        &&& forall|a: int, k: int|
            0 <= a < self.adj@.len() && 0 <= k < self.adj@[a]@.len() ==> self.adj@[a]@[k]
                < self.items@.len()
        &&& forall|k: int| 0 <= k < self.roots@.len() ==> self.roots@[k] < self.items@.len()
    }

    pub open spec fn is_root(&self, x: int) -> bool {
        exists|k: int| 0 <= k < self.roots@.len() && self.roots@[k] == x
    }

    pub open spec fn edge(&self, a: int, b: int) -> bool {
        0 <= a < self.adj@.len() && in_row(self.adj@[a]@, b)
    }

    /// `x` is reached from a root over at most `steps` edges.
    pub open spec fn reach_within(&self, steps: nat, x: int) -> bool
        decreases steps,
    {
        if steps == 0 {
            self.is_root(x)
        } else {
            self.reach_within((steps - 1) as nat, x) || exists|p: int|
                #![trigger self.edge(p, x)]
                self.reach_within((steps - 1) as nat, p) && self.edge(p, x)
        }
    }

    /// `x` is reached from some root along edges.
    pub open spec fn reachable(&self, x: int) -> bool {
        exists|steps: nat| self.reach_within(steps, x)
    }

    /// Builds a graph from items, an edge list and a root list, refusing a
    /// reference to an id that is not an item.
    pub fn new(items: Vec<Item>, edges: &Vec<(usize, usize)>, roots: Vec<usize>) -> (r: Result<
        ItemGraph,
        AnalysisError,
    >)
        ensures
            r is Ok <==> (forall|k: int|
                0 <= k < edges@.len() ==> edges@[k].0 < items@.len() && edges@[k].1
                    < items@.len()) && (forall|k: int|
                0 <= k < roots@.len() ==> roots@[k] < items@.len()),
            r matches Ok(g) ==> {
                &&& g.wf()
                &&& g.items@ == items@
                &&& g.roots@ == roots@
                &&& forall|a: int, b: int|
                    #![trigger g.edge(a, b)]
                    0 <= a < items@.len() ==> (g.edge(a, b) <==> listed(edges@, edges@.len() as int, a, b))
            },
    {
        let n = items.len();
        let mut r: usize = 0;
        while r < roots.len()
            invariant
                r <= roots@.len(),
                n == items@.len(),
                forall|k: int| 0 <= k < r ==> roots@[k] < n,
            decreases roots@.len() - r,
        {
            if roots[r] >= n {
                assert(!(roots@[r as int] < items@.len()));
                return Err(AnalysisError::GraphConsistency);
            }
            r += 1;
        }
        let mut adj: Vec<Vec<usize>> = Vec::new();
        let mut i: usize = 0;
        while i < n
            invariant
                i <= n,
                adj@.len() == i,
                forall|k: int| 0 <= k < roots@.len() ==> roots@[k] < n,
                forall|a: int| 0 <= a < i ==> adj@[a]@.len() == 0,
            decreases n - i,
        {
            adj.push(Vec::new());
            i += 1;
        }
        let mut e: usize = 0;
        while e < edges.len()
            invariant
                e <= edges@.len(),
                n == items@.len(),
                adj@.len() == n,
                forall|k: int| 0 <= k < roots@.len() ==> roots@[k] < n,
                forall|k: int| 0 <= k < e ==> edges@[k].0 < n && edges@[k].1 < n,
                forall|a: int, k: int|
                    0 <= a < n && 0 <= k < adj@[a]@.len() ==> adj@[a]@[k] < n,
                forall|a: int, b: int|
                    #![trigger in_row(adj@[a]@, b)]
                    #![trigger listed(edges@, e as int, a, b)]
                    0 <= a < n ==> (in_row(adj@[a]@, b) <==> listed(edges@, e as int, a, b)),
            decreases edges@.len() - e,
        {
            let (a, b) = edges[e];
            if a >= n || b >= n {
                assert(!(edges@[e as int].0 < items@.len() && edges@[e as int].1 < items@.len()));
                return Err(AnalysisError::GraphConsistency);
            }
            let ghost old_adj = adj@;
            adj[a].push(b);
            assert forall|x: int, y: int|
                0 <= x < n implies (#[trigger] in_row(adj@[x]@, y) <==> #[trigger] listed(
                    edges@,
                    e + 1,
                    x,
                    y,
                )) by {
                if in_row(adj@[x]@, y) {
                    let k = choose|k: int| 0 <= k < adj@[x]@.len() && adj@[x]@[k] == y;
                    if x != a || k < old_adj[x]@.len() {
                        assert(old_adj[x]@[k] == y);
                        assert(in_row(old_adj[x]@, y));
                        let j = choose|j: int| 0 <= j < e && edges@[j].0 == x && edges@[j].1 == y;
                        assert(edges@[j].0 == x);
                    } else {
                        assert(edges@[e as int].0 == x);
                    }
                }
                if listed(edges@, e + 1, x, y) {
                    let k = choose|k: int| 0 <= k < e + 1 && edges@[k].0 == x && edges@[k].1 == y;
                    if k < e {
                        assert(listed(edges@, e as int, x, y));
                        assert(in_row(old_adj[x]@, y));
                        let j = choose|j: int| 0 <= j < old_adj[x]@.len() && old_adj[x]@[j] == y;
                        assert(adj@[x]@[j] == y);
                    } else {
                        assert(adj@[x]@[old_adj[x]@.len() as int] == y);
                    }
                }
            }
            e += 1;
        }
        let g = ItemGraph { items, adj, roots };
        assert forall|a: int, b: int|
            0 <= a < n implies (#[trigger] g.edge(a, b) <==> listed(edges@, edges@.len() as int, a, b)) by {
            if g.edge(a, b) {
                assert(in_row(g.adj@[a]@, b));
            }
            if listed(edges@, edges@.len() as int, a, b) {
                assert(in_row(g.adj@[a]@, b));
            }
        }
        Ok(g)
    }
}

/// `b` stands in `row`.
pub open spec fn in_row(row: Seq<usize>, b: int) -> bool {
    exists|k: int| 0 <= k < row.len() && row[k] == b
}

/// One of the first `upto` edges goes from `a` to `b`.
pub open spec fn listed(edges: Seq<(usize, usize)>, upto: int, a: int, b: int) -> bool {
    exists|k: int| 0 <= k < upto && edges[k].0 == a && edges[k].1 == b
}

} // verus!
