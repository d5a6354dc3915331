use vstd::prelude::*;
use crate::graph::{in_row, ItemGraph, ItemKind};
use crate::order::{by_key, ids_by_key};

verus! {

/// Each item's own size, as a sort key.
pub open spec fn size_keys(g: &ItemGraph) -> Seq<u64> {
    Seq::new(g.len(), |i: int| g.items@[i].size as u64)
}

/// The report keeps the item at position `p` of the ordered garbage list.
pub open spec fn kept(g: &ItemGraph, s: Seq<usize>, p: int, max_items: u32, show_data_segments: bool) -> bool {
    ||| max_items == u32::MAX
    ||| p < max_items
    ||| show_data_segments && g.items@[s[p] as int].kind == ItemKind::Data
}

/// The items of the ordered garbage list `s` that the report keeps, in order.
pub open spec fn capped(g: &ItemGraph, s: Seq<usize>, upto: int, max_items: u32, show_data_segments: bool) -> Seq<usize>
    decreases upto,
{
    if upto <= 0 {
        Seq::empty()
    } else {
        let rest = capped(g, s, upto - 1, max_items, show_data_segments);
        if kept(g, s, upto - 1, max_items, show_data_segments) {
            rest.push(s[upto - 1])
        } else {
            rest
        }
    }
}

/// `s` lists every garbage item once, larger first, ties by ascending id.
pub open spec fn garbage_order(g: &ItemGraph, alive: Seq<bool>, s: Seq<usize>) -> bool {
    &&& by_key(size_keys(g), s)
    &&& forall|k: int| 0 <= k < s.len() ==> #[trigger] s[k] < g.len() && !alive[s[k] as int]
    &&& forall|y: int| 0 <= y < g.len() && !alive[y] ==> #[trigger] in_row(s, y)
}

/// All unreachable items, larger first, ties by ascending id.
pub fn sorted_garbage(g: &ItemGraph, alive: &Vec<bool>) -> (r: Vec<usize>)
    requires
        alive@.len() == g.len(),
    ensures
        garbage_order(g, alive@, r@),
{
    let n = g.items.len();
    let mut keys: Vec<u64> = Vec::new();
    let mut pick: Vec<bool> = Vec::new();
    let mut i: usize = 0;
    while i < n
        invariant
            n == g.len(),
            alive@.len() == n,
            i <= n,
            keys@.len() == i,
            pick@.len() == i,
            forall|j: int| 0 <= j < i ==> keys@[j] == g.items@[j].size as u64 && pick@[j] == !alive@[j],
        decreases n - i,
    {
        keys.push(g.items[i].size as u64);
        pick.push(!alive[i]);
        i += 1;
    }
    assert(keys@ =~= size_keys(g));
    ids_by_key(&keys, &pick)
}

/// The garbage report: the ordered unreachable items, cut after `max_items`
/// (`u32::MAX` for no cap), with data segments kept past the cap when
/// `show_data_segments` is set.
pub fn garbage_report(g: &ItemGraph, alive: &Vec<bool>, max_items: u32, show_data_segments: bool) -> (r: Vec<usize>)
    requires
        alive@.len() == g.len(),
    ensures
        exists|s: Seq<usize>|
            garbage_order(g, alive@, s) && r@ == capped(g, s, s.len() as int, max_items, show_data_segments),
{
    let sorted = sorted_garbage(g, alive);
    let mut r: Vec<usize> = Vec::new();
    let mut p: usize = 0;
    while p < sorted.len()
        invariant
            p <= sorted@.len(),
            forall|k: int| 0 <= k < sorted@.len() ==> #[trigger] sorted@[k] < g.len(),
            r@ == capped(g, sorted@, p as int, max_items, show_data_segments),
        decreases sorted@.len() - p,
    {
        let id = sorted[p];
        if max_items == u32::MAX || p < max_items as usize || (show_data_segments && g.items[id].kind
            == ItemKind::Data) {
            r.push(id);
        }
        p += 1;
    }
    r
}

} // verus!
