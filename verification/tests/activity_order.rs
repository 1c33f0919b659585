use supramark_markdown::layout::activity_order::{
    compute_render_order_for_repeat, reorder_edges_for_partitions, reorder_edges_for_repeat,
    reorder_if_nodes_for_draw, EdgeOrderKey, EdgeSlot, NodeOrderKey, NodeShape,
};

fn node(index: usize, shape: NodeShape, skip_in_flow: bool) -> NodeOrderKey {
    NodeOrderKey { index, shape, skip_in_flow }
}

fn plain(n: usize) -> Vec<NodeOrderKey> {
    (0..n).map(|i| node(i, NodeShape::Other, false)).collect()
}

fn edge(from_index: usize, to_index: usize) -> EdgeOrderKey {
    EdgeOrderKey { from_index, to_index, is_break: false }
}

#[test]
fn then_branch_is_drawn_before_its_if() {
    let nodes = vec![
        node(0, NodeShape::Other, false),
        node(1, NodeShape::IfDiamond, false),
        node(2, NodeShape::Other, true),
        node(3, NodeShape::Other, true),
        node(4, NodeShape::Other, false),
    ];
    assert_eq!(reorder_if_nodes_for_draw(&nodes, &[0, 1, 2, 3, 4]), vec![0, 2, 3, 1, 4]);
    assert_eq!(reorder_if_nodes_for_draw(&nodes, &[1, 4]), vec![1, 4]);
    assert_eq!(reorder_if_nodes_for_draw(&nodes, &[]), Vec::<usize>::new());
}

#[test]
fn tile_edges_come_before_the_connection_into_the_tile() {
    let edges = vec![edge(0, 1), edge(1, 2), edge(2, 3), edge(3, 4)];
    assert_eq!(reorder_edges_for_partitions(&edges, &[(1, 2)]), vec![1, 0, 2, 3]);
    assert_eq!(reorder_edges_for_partitions(&edges, &[]), vec![0, 1, 2, 3]);
    // The outermost tile of nested ones decides.
    assert_eq!(reorder_edges_for_partitions(&edges, &[(2, 3), (1, 3)]), vec![1, 2, 0, 3]);
}

#[test]
fn repeat_body_is_drawn_before_its_diamond() {
    let nodes = plain(6);
    assert_eq!(compute_render_order_for_repeat(&nodes, &[(4, 1)], &[]), vec![0, 2, 3, 1, 4, 5]);
    assert_eq!(compute_render_order_for_repeat(&nodes, &[], &[]), vec![0, 1, 2, 3, 4, 5]);
}

#[test]
fn backward_node_follows_the_hexagon() {
    let nodes = plain(7);
    assert_eq!(compute_render_order_for_repeat(&nodes, &[], &[(4, 1, 6)]), vec![0, 2, 3, 1, 4, 6, 5]);
}

#[test]
fn repeat_edges_follow_the_reference_order() {
    let nodes = vec![
        node(0, NodeShape::Other, false),
        node(1, NodeShape::Diamond, false),
        node(2, NodeShape::Other, false),
        node(3, NodeShape::Other, false),
        node(4, NodeShape::Other, false),
        node(5, NodeShape::Diamond, false),
        node(6, NodeShape::Other, false),
    ];
    let edges = vec![edge(0, 1), edge(1, 2), edge(2, 3), edge(3, 4), edge(4, 5), edge(5, 6)];
    assert_eq!(
        reorder_edges_for_repeat(&edges, &[(1, 4, 1)], &nodes),
        vec![
            EdgeSlot::Edge(2),
            EdgeSlot::Edge(1),
            EdgeSlot::LoopBack(0, 0),
            EdgeSlot::Edge(3),
            EdgeSlot::Edge(4),
            EdgeSlot::Edge(0),
            EdgeSlot::Edge(5),
        ]
    );
}

#[test]
fn edges_keep_their_order_without_repeats() {
    let nodes = plain(3);
    let edges = vec![edge(0, 1), edge(1, 2)];
    assert_eq!(reorder_edges_for_repeat(&edges, &[], &nodes), vec![EdgeSlot::Edge(0), EdgeSlot::Edge(1)]);
}

#[test]
fn render_order_is_a_permutation_of_the_positions() {
    let nodes = plain(10);
    let mut order = compute_render_order_for_repeat(&nodes, &[(7, 1), (5, 3)], &[(9, 8, 0)]);
    assert_eq!(order.len(), 10);
    order.sort();
    assert_eq!(order, (0..10).collect::<Vec<usize>>());
}

#[test]
fn hexagon_that_is_a_backward_node_is_drawn_twice() {
    let nodes = plain(5);
    assert_eq!(compute_render_order_for_repeat(&nodes, &[(3, 2)], &[(1, 0, 3)]), vec![0, 1, 3, 2, 3, 4]);
}
