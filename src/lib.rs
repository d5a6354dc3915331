//! Size attribution and dead-code detection over a module's item graph.
//!
//! `graph` holds the items, their references and the entry points;
//! `reach` splits the items into alive and garbage by reachability from the
//! entry points; `idom` finds each alive item's immediate dominator;
//! `dominators` links every alive item to its immediate
//! dominator over a supersource that feeds all entry points and sums retained
//! sizes; `garbage` and `order` order the reports; `report` writes them as
//! JSON; `analysis` runs the whole pipeline; `tape` converts tape documents
//! to JSON.

use vstd::prelude::*;

pub mod graph;
pub mod reach;
pub mod order;
pub mod garbage;
pub mod dominators;
pub mod idom;
pub mod report;
pub mod analysis;
pub mod tape;

verus! {

} // verus!
