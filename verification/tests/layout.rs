use cicada_server::layout::{auto_layout, LayoutNode, COLUMN_GAP, NODE_WIDTH, ROW_GAP};
use std::collections::HashMap;

fn node<'a>(name: &'a str, deps: &[&'a str], h: u32) -> LayoutNode<'a> {
    LayoutNode {
        name,
        deps: deps.to_vec(),
        size: [NODE_WIDTH, h],
        manual: None,
    }
}

fn cells(nodes: &[LayoutNode<'_>]) -> HashMap<String, [i64; 2]> {
    auto_layout(nodes).into_iter().collect()
}

#[test]
fn layers_by_depth_and_stacks_in_definition_order() {
    let nodes = vec![
        node("a", &[], 3),
        node("b", &["a"], 2),
        node("c", &[], 2),
        node("d", &["b", "c"], 4),
    ];
    let cells = cells(&nodes);
    assert_eq!(cells["a"], [0, 0]);
    assert_eq!(cells["c"], [0, 3 + ROW_GAP], "stacked under a");
    let col1 = i64::from(NODE_WIDTH) + COLUMN_GAP;
    assert_eq!(cells["b"], [col1, 0]);
    assert_eq!(cells["d"], [2 * col1, 0]);
}

#[test]
fn manual_overrides_win_and_are_skipped_in_stacking() {
    let mut nodes = vec![node("a", &[], 3), node("b", &[], 2)];
    nodes[0].manual = Some([40, 9]);
    let cells = cells(&nodes);
    assert_eq!(cells["a"], [40, 9]);
    assert_eq!(cells["b"], [0, 0], "b takes the top slot a vacated");
}

#[test]
fn auto_nodes_flow_around_manual_ones() {
    // `a` is nudged one cell right of its auto slot; `b` (same column)
    // must not be laid underneath it but slide below.
    let mut nodes = vec![node("a", &[], 3), node("b", &[], 2), node("c", &[], 2)];
    nodes[0].manual = Some([1, 0]);
    let cells = cells(&nodes);
    assert_eq!(cells["a"], [1, 0]);
    assert_eq!(cells["b"], [0, 3 + ROW_GAP], "slid below the manual node");
    assert_eq!(cells["c"], [0, 3 + ROW_GAP + 2 + ROW_GAP]);
}

#[test]
fn deterministic_and_cycle_safe() {
    let nodes = vec![
        node("a", &["b"], 1),
        node("b", &["a"], 1),
        node("c", &["zzz"], 1),
    ];
    let first = cells(&nodes);
    let second = cells(&nodes);
    assert_eq!(first, second);
    assert!(
        first.contains_key("c"),
        "unknown deps are ignored, node still placed"
    );
}

#[test]
fn a_chain_defined_backwards_still_layers_by_depth() {
    let nodes = vec![
        node("x0", &["x1"], 1),
        node("x1", &["x2"], 1),
        node("x2", &["x3"], 1),
        node("x3", &[], 1),
    ];
    let cells = cells(&nodes);
    let col = i64::from(NODE_WIDTH) + COLUMN_GAP;
    assert_eq!(cells["x3"], [0, 0]);
    assert_eq!(cells["x2"], [col, 0]);
    assert_eq!(cells["x1"], [2 * col, 0]);
    assert_eq!(cells["x0"], [3 * col, 0]);
}

#[test]
fn a_wide_node_widens_its_column_and_a_self_dependency_is_ignored() {
    let mut wide = node("w", &["w"], 1);
    wide.size = [20, 1];
    let nodes = vec![wide, node("n", &["w"], 1)];
    let cells = cells(&nodes);
    assert_eq!(cells["w"], [0, 0]);
    assert_eq!(cells["n"], [20 + COLUMN_GAP, 0]);
}

#[test]
fn an_auto_node_slides_past_several_manual_ones() {
    let mut nodes = vec![
        node("m1", &[], 2),
        node("m2", &[], 2),
        node("a", &[], 2),
    ];
    nodes[0].manual = Some([0, 0]);
    nodes[1].manual = Some([2, 3]);
    let cells = cells(&nodes);
    // Past m1 (bottom 2) to row 3, then past m2 (bottom 5) to row 6.
    assert_eq!(cells["a"], [0, 6]);
}

#[test]
fn no_nodes_no_cells() {
    assert!(auto_layout(&[]).is_empty());
}

#[test]
fn auto_nodes_overlap_no_other_node() {
    let nodes = [
        LayoutNode { name: "a", deps: vec![], size: [NODE_WIDTH, 3], manual: None },
        LayoutNode { name: "pin", deps: vec![], size: [12, 4], manual: Some([0, 2]) },
        LayoutNode { name: "b", deps: vec!["a"], size: [14, 2], manual: None },
        LayoutNode { name: "c", deps: vec![], size: [NODE_WIDTH, 5], manual: None },
        LayoutNode { name: "d", deps: vec!["b"], size: [NODE_WIDTH, 1], manual: None },
    ];
    let cells = auto_layout(&nodes);
    assert_eq!(cells.len(), nodes.len());
    let rect = |i: usize| {
        let [x, y] = cells[i].1;
        (x, y, i64::from(nodes[i].size[0]), i64::from(nodes[i].size[1]))
    };
    for i in 0..nodes.len() {
        if nodes[i].manual.is_some() {
            continue;
        }
        let (x1, y1, w1, h1) = rect(i);
        assert!(y1 >= 0);
        for k in 0..nodes.len() {
            if k == i {
                continue;
            }
            let (x2, y2, w2, h2) = rect(k);
            assert!(
                x1 + w1 <= x2 || x2 + w2 <= x1 || y1 + h1 <= y2 || y2 + h2 <= y1,
                "{} overlaps {}",
                nodes[i].name,
                nodes[k].name
            );
        }
    }
}
