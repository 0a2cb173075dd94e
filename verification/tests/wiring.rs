//! Tests for wiring layers and the plain directed-graph projection.

use sd_core::hypergraph::{HyperGraph, Node, NodeIndex, Port, PortIndex};
use sd_core::language::spartan::Op;
use sd_core::monoidal::MonoidalOp;
use sd_core::petgraph::to_pet;
use sd_core::wiring::Wiring;

fn port(node: usize, index: usize) -> Port {
    Port { node: NodeIndex(node), index: PortIndex(index) }
}

#[test]
fn wiring_lowers_to_copies() {
    // two ports; the first demanded twice, the second once
    let mut w = Wiring::new(2);
    w.add_wire(0);
    w.add_wire(0);
    w.add_wire(1);
    let slices = w.to_slices::<Op>(&[]);
    // the copy layer consumes one wire per port and produces the demand
    assert!(slices.len() >= 1);
    assert_eq!(slices[0].number_of_inputs(), 2);
    assert_eq!(slices[0].number_of_outputs(), 3);
    assert_eq!(slices[0].ops[0].0, MonoidalOp::Copy { copies: 2 });
    assert_eq!(slices[0].ops[1].0, MonoidalOp::Copy { copies: 1 });
    for i in 0..slices.len() - 1 {
        assert_eq!(slices[i].number_of_outputs(), slices[i + 1].number_of_inputs());
    }
}

#[test]
fn trivial_wiring_lowers_to_nothing() {
    // each port demanded exactly once, in order: no layers at all
    let mut w = Wiring::new(2);
    w.add_wire(0);
    w.add_wire(1);
    let slices = w.to_slices::<Op>(&[]);
    assert_eq!(slices.len(), 0);
}

#[test]
fn projection_covers_ports_and_operations() {
    let mut g: HyperGraph<Op> = HyperGraph::new();
    g.add_node(Node::Input, vec![], 1).unwrap();
    g.add_node(Node::Weight(Op::Plus), vec![port(0, 0), port(0, 0)], 1).unwrap();
    g.add_node(Node::Output, vec![port(1, 0)], 0).unwrap();
    let pet = to_pet(&g);
    // one node per producing port (two) plus the addition
    assert_eq!(pet.nodes.len(), 3);
    // two arcs into the addition, one out of it
    assert_eq!(pet.arcs.len(), 3);
    for (from, to, _) in &pet.arcs {
        assert!(*from < pet.nodes.len());
        assert!(*to < pet.nodes.len());
    }
}
