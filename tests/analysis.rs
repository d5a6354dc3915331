use rust_wasm::analysis::analyze;
use rust_wasm::dominators::dominators;
use rust_wasm::garbage::{garbage_report, sorted_garbage};
use rust_wasm::graph::{AnalysisError, Item, ItemGraph, ItemKind};
use rust_wasm::order::ids_by_key;
use rust_wasm::reach::traverse;

fn item(name: &str, kind: ItemKind, size: u32) -> Item {
    Item { name: name.to_string(), kind, size }
}

fn graph(items: Vec<Item>, edges: &[(usize, usize)], roots: Vec<usize>) -> ItemGraph {
    ItemGraph::new(items, &edges.to_vec(), roots).unwrap()
}

#[test]
fn scenario_private_callee_and_unreferenced_item() {
    let g = graph(
        vec![item("A", ItemKind::Code, 10), item("B", ItemKind::Code, 5), item("C", ItemKind::Code, 3)],
        &[(0, 1)],
        vec![0],
    );
    let t = traverse(&g);
    assert_eq!(t.alive, vec![true, true, false]);
    let d = dominators(&g, &t);
    assert_eq!(d.up[1], 0);
    assert_eq!(d.up[0], 3);
    assert_eq!(d.retained[0], 15);
    assert_eq!(d.retained[1], 5);
    let r = analyze(&g).unwrap();
    assert_eq!(
        r.dominators,
        "[{\"id\":0,\"name\":\"A\",\"kind\":\"code\",\"size\":10,\"retained_size\":15,\"immediate_dominator_id\":0},\
         {\"id\":1,\"name\":\"B\",\"kind\":\"code\",\"size\":5,\"retained_size\":5,\"immediate_dominator_id\":0}]"
    );
    assert_eq!(r.garbage, "[{\"id\":2,\"name\":\"C\",\"kind\":\"code\",\"size\":3}]");
}

#[test]
fn scenario_helper_shared_by_two_roots() {
    let g = graph(
        vec![item("A", ItemKind::Code, 10), item("B", ItemKind::Code, 20), item("H", ItemKind::Code, 7)],
        &[(0, 2), (1, 2)],
        vec![0, 1],
    );
    let t = traverse(&g);
    let d = dominators(&g, &t);
    assert_eq!(d.up[2], 3);
    assert_eq!(d.retained[0], 10);
    assert_eq!(d.retained[1], 20);
    assert_eq!(d.retained[2], 7);
    let r = analyze(&g).unwrap();
    assert_eq!(
        r.dominators,
        "[{\"id\":1,\"name\":\"B\",\"kind\":\"code\",\"size\":20,\"retained_size\":20,\"immediate_dominator_id\":1},\
         {\"id\":0,\"name\":\"A\",\"kind\":\"code\",\"size\":10,\"retained_size\":10,\"immediate_dominator_id\":0},\
         {\"id\":2,\"name\":\"H\",\"kind\":\"code\",\"size\":7,\"retained_size\":7,\"immediate_dominator_id\":null}]"
    );
    assert_eq!(r.garbage, "[]");
}

#[test]
fn partition_covers_every_item_once() {
    let g = graph(
        vec![
            item("r", ItemKind::Code, 1),
            item("a", ItemKind::Code, 1),
            item("b", ItemKind::Data, 1),
            item("c", ItemKind::Type, 1),
            item("d", ItemKind::Other, 1),
        ],
        &[(0, 1), (2, 0), (3, 4)],
        vec![0],
    );
    let t = traverse(&g);
    assert_eq!(t.alive, vec![true, true, false, false, false]);
    let garbage = sorted_garbage(&g, &t.alive);
    assert_eq!(garbage, vec![2, 3, 4]);
    let alive_count = t.alive.iter().filter(|a| **a).count();
    assert_eq!(alive_count + garbage.len(), 5);
}

#[test]
fn cycles_terminate_and_form_a_forest() {
    // r -> a -> b -> a, b -> c, c -> a
    let g = graph(
        vec![
            item("r", ItemKind::Code, 1),
            item("a", ItemKind::Code, 2),
            item("b", ItemKind::Code, 4),
            item("c", ItemKind::Code, 8),
        ],
        &[(0, 1), (1, 2), (2, 1), (2, 3), (3, 1)],
        vec![0],
    );
    let t = traverse(&g);
    let d = dominators(&g, &t);
    assert_eq!(d.up, vec![4, 0, 1, 2]);
    assert_eq!(d.retained, vec![15, 14, 12, 8]);
    for x in 0..4 {
        let mut y = x;
        let mut steps = 0;
        while y != 4 {
            y = d.up[y];
            steps += 1;
            assert!(steps <= 4);
        }
    }
}

#[test]
fn diamond_is_dominated_by_its_top() {
    // r -> a, r -> b, a -> c, b -> c
    let g = graph(
        vec![
            item("r", ItemKind::Code, 1),
            item("a", ItemKind::Code, 2),
            item("b", ItemKind::Code, 3),
            item("c", ItemKind::Code, 4),
        ],
        &[(0, 1), (0, 2), (1, 3), (2, 3)],
        vec![0],
    );
    let t = traverse(&g);
    let d = dominators(&g, &t);
    assert_eq!(d.up, vec![4, 0, 0, 0]);
    assert_eq!(d.retained, vec![10, 2, 3, 4]);
}

#[test]
fn empty_root_set_makes_everything_garbage() {
    let g = graph(vec![item("x", ItemKind::Code, 3), item("y", ItemKind::Data, 9)], &[(0, 1)], vec![]);
    let r = analyze(&g).unwrap();
    assert_eq!(r.dominators, "[]");
    assert_eq!(
        r.garbage,
        "[{\"id\":1,\"name\":\"y\",\"kind\":\"data\",\"size\":9},{\"id\":0,\"name\":\"x\",\"kind\":\"code\",\"size\":3}]"
    );
}

#[test]
fn empty_graph() {
    let g = graph(vec![], &[], vec![]);
    let r = analyze(&g).unwrap();
    assert_eq!(r.dominators, "[]");
    assert_eq!(r.garbage, "[]");
}

#[test]
fn dangling_edge_is_refused() {
    let r = ItemGraph::new(vec![item("x", ItemKind::Code, 1)], &vec![(0, 1)], vec![0]);
    assert!(matches!(r, Err(AnalysisError::GraphConsistency)));
}

#[test]
fn dangling_root_is_refused() {
    let r = ItemGraph::new(vec![item("x", ItemKind::Code, 1)], &vec![], vec![2]);
    assert!(matches!(r, Err(AnalysisError::GraphConsistency)));
}

#[test]
fn duplicate_edges_and_roots_are_kept_and_harmless() {
    let g = graph(
        vec![item("r", ItemKind::Code, 1), item("a", ItemKind::Code, 2)],
        &[(0, 1), (0, 1)],
        vec![0, 0],
    );
    assert_eq!(g.adj[0], vec![1, 1]);
    let t = traverse(&g);
    let d = dominators(&g, &t);
    assert_eq!(d.up, vec![2, 0]);
    assert_eq!(d.retained, vec![3, 2]);
}

#[test]
fn garbage_order_and_cap_with_data_segments() {
    let g = graph(
        vec![
            item("root", ItemKind::Code, 1),
            item("big", ItemKind::Code, 50),
            item("tie_low", ItemKind::Code, 20),
            item("tie_high", ItemKind::Code, 20),
            item("seg", ItemKind::Data, 5),
        ],
        &[],
        vec![0],
    );
    let t = traverse(&g);
    assert_eq!(sorted_garbage(&g, &t.alive), vec![1, 2, 3, 4]);
    assert_eq!(garbage_report(&g, &t.alive, 2, true), vec![1, 2, 4]);
    assert_eq!(garbage_report(&g, &t.alive, 2, false), vec![1, 2]);
    assert_eq!(garbage_report(&g, &t.alive, 0, false), Vec::<usize>::new());
    assert_eq!(garbage_report(&g, &t.alive, u32::MAX, false), vec![1, 2, 3, 4]);
}

#[test]
fn ids_by_key_orders_descending_then_by_id() {
    let keys: Vec<u64> = vec![3, 9, 3, 1, 9];
    let pick = vec![true, true, true, false, true];
    assert_eq!(ids_by_key(&keys, &pick), vec![1, 4, 0, 2]);
}

#[test]
fn names_are_escaped() {
    let g = graph(vec![item("q\"b\\n\nx\u{1}é", ItemKind::Type, 0)], &[], vec![]);
    let r = analyze(&g).unwrap();
    assert_eq!(
        r.garbage,
        "[{\"id\":0,\"name\":\"q\\\"b\\\\n\\u000ax\\u0001é\",\"kind\":\"type\",\"size\":0}]"
    );
}

#[test]
fn large_sizes_are_written_in_full() {
    let g = graph(
        vec![item("r", ItemKind::Code, u32::MAX), item("a", ItemKind::Code, u32::MAX)],
        &[(0, 1)],
        vec![0],
    );
    let t = traverse(&g);
    let d = dominators(&g, &t);
    assert_eq!(d.retained[0], 2 * (u32::MAX as u64));
    let r = analyze(&g).unwrap();
    assert!(r.dominators.contains("\"retained_size\":8589934590"));
}

#[test]
fn exclusive_root_retains_all_it_reaches() {
    // r1 -> a -> c, r1 -> b -> c; r2 -> d; shared helper h from both roots
    let g = graph(
        vec![
            item("r1", ItemKind::Code, 1),
            item("a", ItemKind::Code, 2),
            item("b", ItemKind::Code, 4),
            item("c", ItemKind::Code, 8),
            item("r2", ItemKind::Code, 16),
            item("d", ItemKind::Code, 32),
            item("h", ItemKind::Code, 64),
        ],
        &[(0, 1), (0, 2), (1, 3), (2, 3), (4, 5), (0, 6), (4, 6)],
        vec![0, 4],
    );
    let t = traverse(&g);
    let d = dominators(&g, &t);
    assert_eq!(d.up, vec![7, 0, 0, 0, 7, 4, 7]);
    assert_eq!(d.retained, vec![15, 2, 4, 8, 48, 32, 64]);
}
