use vstd::prelude::*;
use vstd::string::StringSliceAdditionalSpecFns;
use vstd::utf8::{decode_utf8, valid_utf8};
use crate::dominators::{dominance, dominators};
use crate::garbage::{capped, garbage_order, garbage_report};
use crate::graph::{AnalysisError, ItemGraph};
use crate::order::{by_key, ids_by_key};
use crate::reach::{traverse, Traversal};
use crate::report::{
    dominators_body, dominators_json, garbage_body, garbage_json, lemma_dominators_body_valid,
    lemma_garbage_body_valid,
};
use crate::graph::in_row;

verus! {

/// The two reports of a module: its dominator list and its garbage list, as
/// JSON text.
pub struct WasmBinaryResult {
    pub dominators: String,
    pub garbage: String,
}

/// `s` lists every alive item once, larger retained size first, ties by
/// ascending id.
pub open spec fn dominator_order(alive: Seq<bool>, ret: Seq<u64>, s: Seq<usize>) -> bool {
    &&& by_key(ret, s)
    &&& forall|k: int| 0 <= k < s.len() ==> #[trigger] s[k] < alive.len() && alive[s[k] as int]
    &&& forall|y: int| 0 <= y < alive.len() && alive[y] ==> #[trigger] in_row(s, y)
}

/// Relies on `String::from_utf8`: it accepts exactly the valid UTF-8 byte
/// strings, and the text holds the characters they encode.
#[verifier::external_body]
fn utf8_text(b: Vec<u8>) -> (r: Option<String>)
    ensures
        r is Some <==> valid_utf8(b@),
        r matches Some(s) ==> s@ == decode_utf8(b@),
{
    String::from_utf8(b).ok()
}

/// Analyses a module's item graph: the dominator list of the alive items and
/// the list of every unreachable item, data segments included. The text
/// written is always valid UTF-8, so the analysis always succeeds.
pub fn analyze(g: &ItemGraph) -> (r: Result<WasmBinaryResult, AnalysisError>)
    requires
        g.wf(),
        g.len() < 0x1_0000_0000,
    ensures
        r is Ok,
        r matches Ok(res) ==> exists|t: Traversal, up: Seq<usize>, ret: Seq<u64>, ds: Seq<usize>, gs: Seq<usize>|
            {
                &&& t.complete(g)
                &&& dominance(g, &t, up, ret)
                &&& dominator_order(t.alive@, ret, ds)
                &&& garbage_order(g, t.alive@, gs)
                &&& res.dominators@ == decode_utf8(
                    "[".spec_bytes() + dominators_body(g, up, ret, ds) + "]".spec_bytes(),
                )
                &&& res.garbage@ == decode_utf8(
                    "[".spec_bytes() + garbage_body(g, capped(g, gs, gs.len() as int, u32::MAX, true))
                        + "]".spec_bytes(),
                )
            },
{
    let t = traverse(g);
    let d = dominators(g, &t);
    let ds = ids_by_key(&d.retained, &t.alive);
    let gs = garbage_report(g, &t.alive, u32::MAX, true);
    let ghost sorted = choose|s: Seq<usize>|
        garbage_order(g, t.alive@, s) && gs@ == capped(g, s, s.len() as int, u32::MAX, true);
    proof {
        assert forall|k: int| 0 <= k < gs@.len() implies #[trigger] gs@[k] < g.len() by {
            lemma_capped_within(g, sorted, sorted.len() as int, k);
        }
    }
    let dj = dominators_json(g, &t, &d.up, &d.retained, &ds);
    let gj = garbage_json(g, &gs);
    proof {
        lemma_dominators_body_valid(g, d.up@, d.retained@, ds@);
        lemma_garbage_body_valid(g, gs@);
    }
    let dominators = match utf8_text(dj) {
        Some(s) => s,
        None => return Err(AnalysisError::Serialization),
    };
    let garbage = match utf8_text(gj) {
        Some(s) => s,
        None => return Err(AnalysisError::Serialization),
    };
    let res = WasmBinaryResult { dominators, garbage };
    assert(dominator_order(t.alive@, d.retained@, ds@));
    Ok(res)
}

proof fn lemma_capped_within(g: &ItemGraph, s: Seq<usize>, upto: int, k: int)
    requires
        0 <= upto <= s.len(),
        forall|j: int| 0 <= j < s.len() ==> #[trigger] s[j] < g.len(),
        0 <= k < capped(g, s, upto, u32::MAX, true).len(),
    ensures
        capped(g, s, upto, u32::MAX, true)[k] < g.len(),
    decreases upto,
{
    let rest = capped(g, s, upto - 1, u32::MAX, true);
    if k < rest.len() {
        lemma_capped_within(g, s, upto - 1, k);
    }
}

} // verus!
