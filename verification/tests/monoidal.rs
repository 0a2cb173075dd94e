//! Tests for the permutation layers, the arity bookkeeping, and the full
//! hypergraph-to-monoidal lowering.

use sd_core::hypergraph::{HyperGraph, Node, NodeIndex, Port, PortIndex};
use sd_core::language::spartan::Op;
use sd_core::monoidal::{MonoidalOp, Slice};
use sd_core::monoidal_wired::{FromHyperError, MonoidalWiredGraph};

fn port(node: usize, index: usize) -> Port {
    Port { node: NodeIndex(node), index: PortIndex(index) }
}

fn id_op() -> (MonoidalOp<Op>, Vec<NodeIndex>) {
    (MonoidalOp::Copy { copies: 1 }, vec![])
}

fn swap_op() -> (MonoidalOp<Op>, Vec<NodeIndex>) {
    (MonoidalOp::Swap, vec![])
}

#[test]
fn test_permutation() {
    // already sorted: no layers
    let r = Slice::<Op>::permutation_to_swaps(vec![0, 1], &[]);
    assert_eq!(r, Vec::<Slice<Op>>::new());

    // one inversion: a single swap layer
    let r = Slice::<Op>::permutation_to_swaps(vec![1, 0], &[]);
    assert_eq!(r, vec![Slice { ops: vec![swap_op()] }]);

    // two passes: [1,2,0] -> [1,0,2] -> [0,1,2]
    let r = Slice::<Op>::permutation_to_swaps(vec![1, 2, 0], &[]);
    assert_eq!(
        r,
        vec![
            Slice { ops: vec![id_op(), swap_op()] },
            Slice { ops: vec![swap_op(), id_op()] },
        ]
    );
}

/// Builds `bind y = plus(x, x) in y` as a hypergraph: one boundary input,
/// a single addition consuming it twice, one boundary output.
fn plus_graph() -> HyperGraph<Op> {
    let mut g: HyperGraph<Op> = HyperGraph::new();
    let input = g.add_node(Node::Input, vec![], 1).unwrap();
    assert_eq!(input, NodeIndex(0));
    let plus = g
        .add_node(Node::Weight(Op::Plus), vec![port(0, 0), port(0, 0)], 1)
        .unwrap();
    assert_eq!(plus, NodeIndex(1));
    let output = g.add_node(Node::Output, vec![port(1, 0)], 0).unwrap();
    assert_eq!(output, NodeIndex(2));
    g
}

#[test]
fn lowering_composes_arities() {
    let g = plus_graph();
    let wired = MonoidalWiredGraph::from_hypergraph(&g, &[]).unwrap();
    assert_eq!(wired.inputs, 1);
    let flat = wired.to_graph(&[]).unwrap();
    assert_eq!(flat.inputs, 1);
    assert!(flat.slices.len() >= 1);
    // adjacent slices agree on their wire counts
    assert_eq!(flat.slices[0].number_of_inputs(), 1);
    for i in 0..flat.slices.len() - 1 {
        assert_eq!(
            flat.slices[i].number_of_outputs(),
            flat.slices[i + 1].number_of_inputs()
        );
    }
}

#[test]
fn lowering_rejects_boundary_only_graphs() {
    let g: HyperGraph<Op> = HyperGraph::default();
    let r = MonoidalWiredGraph::from_hypergraph(&g, &[]);
    assert_eq!(r.err().unwrap(), FromHyperError::EmptyGraph);
}

#[test]
fn lowering_recurses_into_thunks() {
    // a thunk of one argument whose body is an addition, applied to one
    // captured wire
    let mut body: HyperGraph<Op> = HyperGraph::new();
    body.add_node(Node::Input, vec![], 1).unwrap();
    body.add_node(Node::Input, vec![], 1).unwrap();
    body.add_node(Node::Weight(Op::Plus), vec![port(0, 0), port(1, 0)], 1)
        .unwrap();
    body.add_node(Node::Output, vec![port(2, 0)], 0).unwrap();

    let mut g: HyperGraph<Op> = HyperGraph::new();
    g.add_node(Node::Input, vec![], 1).unwrap();
    g.add_node(Node::Thunk { args: 1, body }, vec![port(0, 0)], 1)
        .unwrap();
    g.add_node(Node::Output, vec![port(1, 0)], 0).unwrap();

    let wired = MonoidalWiredGraph::from_hypergraph(&g, &[]).unwrap();
    let flat = wired.to_graph(&[]).unwrap();
    assert_eq!(flat.inputs, 1);
    assert_eq!(flat.slices[0].number_of_inputs(), 1);
    for i in 0..flat.slices.len() - 1 {
        assert_eq!(
            flat.slices[i].number_of_outputs(),
            flat.slices[i + 1].number_of_inputs()
        );
    }
}

#[test]
fn thunk_with_empty_body_fails() {
    // the body is boundary-only: one input wire passed straight through
    let mut body: HyperGraph<Op> = HyperGraph::new();
    body.add_node(Node::Input, vec![], 1).unwrap();
    body.add_node(Node::Output, vec![port(0, 0)], 0).unwrap();
    let mut g: HyperGraph<Op> = HyperGraph::new();
    g.add_node(Node::Input, vec![], 1).unwrap();
    g.add_node(Node::Thunk { args: 0, body }, vec![port(0, 0)], 1)
        .unwrap();
    g.add_node(Node::Output, vec![port(1, 0)], 0).unwrap();
    // the nested level has nothing to lower
    assert_eq!(
        MonoidalWiredGraph::from_hypergraph(&g, &[]).err().unwrap(),
        FromHyperError::EmptyGraph
    );
}

#[test]
fn operation_arities() {
    let copy: MonoidalOp<Op> = MonoidalOp::Copy { copies: 3 };
    assert_eq!(copy.number_of_inputs(), 1);
    assert_eq!(copy.number_of_outputs(), 3);
    let swap: MonoidalOp<Op> = MonoidalOp::Swap;
    assert_eq!(swap.number_of_inputs(), 2);
    assert_eq!(swap.number_of_outputs(), 2);
    let op: MonoidalOp<Op> = MonoidalOp::Operation { inputs: 2, op_name: Op::Plus };
    assert_eq!(op.number_of_inputs(), 2);
    assert_eq!(op.number_of_outputs(), 1);
}
