//! Tests for graph construction, lookups, rank layering, reachability,
//! the collapse overlay, and subgraph extraction.

use sd_core::collapse::{CollapseGraph, CollapsedKind};
use sd_core::reachability::{bidirectional_from_n, NReachable};
use sd_core::monoidal_wired::{MonoidalWiredGraph, WiredSlice};
use sd_core::hypergraph::{HyperGraph, HyperGraphError, Node, NodeIndex, Port, PortIndex};
use sd_core::language::spartan::Op;

fn port(node: usize, index: usize) -> Port {
    Port { node: NodeIndex(node), index: PortIndex(index) }
}

/// A diamond: one input fans out to two additions joined by a third.
fn diamond() -> HyperGraph<Op> {
    let mut g: HyperGraph<Op> = HyperGraph::new();
    g.add_node(Node::Input, vec![], 1).unwrap(); // 0
    g.add_node(Node::Weight(Op::Plus), vec![port(0, 0)], 1).unwrap(); // 1
    g.add_node(Node::Weight(Op::Minus), vec![port(0, 0)], 1).unwrap(); // 2
    g.add_node(Node::Weight(Op::Times), vec![port(1, 0), port(2, 0)], 1)
        .unwrap(); // 3
    g.add_node(Node::Output, vec![port(3, 0)], 0).unwrap(); // 4
    g
}

#[test]
fn port_from_pair() {
    assert_eq!(Port::from((2, 1)), port(2, 1));
}

#[test]
fn default_graph_shape() {
    let g: HyperGraph<Op> = HyperGraph::default();
    assert_eq!(g.len(), 2);
    assert!(matches!(g.get(NodeIndex(0)).unwrap(), Node::Input));
    assert!(matches!(g.get(NodeIndex(1)).unwrap(), Node::Output));
    assert_eq!(g.number_of_outputs(NodeIndex(0)).unwrap(), 0);
    assert_eq!(g.number_of_inputs(NodeIndex(1)).unwrap(), 0);
}

#[test]
fn add_node_reports_unknown_node() {
    let mut g: HyperGraph<Op> = HyperGraph::new();
    let r = g.add_node(Node::Weight(Op::Plus), vec![port(7, 0)], 1);
    assert_eq!(r, Err(HyperGraphError::UnknownNode(NodeIndex(7))));
    // all-or-nothing: the graph is untouched
    assert_eq!(g.len(), 0);
}

#[test]
fn add_node_reports_unknown_port() {
    let mut g: HyperGraph<Op> = HyperGraph::new();
    g.add_node(Node::Input, vec![], 1).unwrap();
    let r = g.add_node(Node::Weight(Op::Plus), vec![port(0, 3)], 1);
    assert_eq!(r, Err(HyperGraphError::UnknownPort(port(0, 3))));
    assert_eq!(g.len(), 1);
}

#[test]
fn lookups_and_edges() {
    let g = diamond();
    assert_eq!(g.number_of_inputs(NodeIndex(3)).unwrap(), 2);
    assert_eq!(g.number_of_outputs(NodeIndex(0)).unwrap(), 1);
    assert_eq!(g.get_inputs(NodeIndex(3)).unwrap().as_slice(), &[port(1, 0), port(2, 0)]);
    // the input's single port fans out to both additions
    let outs = g.get_outputs(NodeIndex(0)).unwrap();
    assert_eq!(outs[0].len(), 2);
    assert_eq!(g.get(NodeIndex(9)).err().unwrap(), HyperGraphError::UnknownNode(NodeIndex(9)));
    assert_eq!(g.nodes(), vec![NodeIndex(0), NodeIndex(1), NodeIndex(2), NodeIndex(3), NodeIndex(4)]);
    // one hyperedge per producing port, in insertion order, with consumers
    let edges = g.edges();
    assert_eq!(edges.len(), 4);
    assert_eq!(edges[0].0, port(0, 0));
    assert_eq!(edges[0].1, vec![port(1, 0), port(2, 0)]);
    assert_eq!(edges[1].0, port(1, 0));
    assert_eq!(edges[1].1, vec![port(3, 0)]);
    assert_eq!(edges[3].0, port(3, 0));
    assert_eq!(edges[3].1, vec![port(4, 0)]);
}

#[test]
fn recurse_follows_thunks() {
    let mut body: HyperGraph<Op> = HyperGraph::new();
    body.add_node(Node::Input, vec![], 0).unwrap();
    body.add_node(Node::Output, vec![], 0).unwrap();
    let mut g: HyperGraph<Op> = HyperGraph::new();
    g.add_node(Node::Thunk { args: 0, body }, vec![], 1).unwrap();
    assert!(g.recurse(&[]).is_some());
    let nested = g.recurse(&[NodeIndex(0)]).unwrap();
    assert_eq!(nested.len(), 2);
    assert!(g.recurse(&[NodeIndex(1)]).is_none());
    assert!(g.recurse(&[NodeIndex(0), NodeIndex(0)]).is_none());
}

#[test]
fn ranks_partition_interior_nodes() {
    let g = diamond();
    let (inputs, ranks, outputs) = g.ranks_from_end();
    assert_eq!(inputs, vec![NodeIndex(0)]);
    assert_eq!(outputs, vec![NodeIndex(4)]);
    // rank 0 holds the join, rank 1 the two branches
    assert_eq!(ranks.len(), 2);
    assert_eq!(ranks[0], vec![NodeIndex(3)]);
    assert_eq!(ranks[1], vec![NodeIndex(1), NodeIndex(2)]);
}

#[test]
fn successors_and_predecessors() {
    let g = diamond();
    let succ = g.successors(NodeIndex(0));
    assert_eq!(succ, vec![NodeIndex(1), NodeIndex(2)]);
    assert!(!succ.contains(&NodeIndex(0)));
    let pred = g.predecessors(NodeIndex(3));
    assert_eq!(pred, vec![NodeIndex(1), NodeIndex(2)]);
    assert!(!pred.contains(&NodeIndex(3)));
}

#[test]
fn reachability_with_depth() {
    let g = diamond();
    let fwd = g.forward_reachable_n(NodeIndex(0), 1);
    assert_eq!(fwd, vec![NodeIndex(0), NodeIndex(1), NodeIndex(2)]);
    let fwd_all = g.forward_reachable_n(NodeIndex(0), 100);
    assert_eq!(fwd_all.len(), 5);
    let bwd = g.backward_reachable_n(NodeIndex(4), 1);
    assert_eq!(bwd, vec![NodeIndex(4), NodeIndex(3)]);
    // depth zero: exactly the node itself
    let bi = g.bidirectional_reachable_n(NodeIndex(3), 0);
    assert_eq!(bi, vec![NodeIndex(3)]);
    let bi1 = g.bidirectional_reachable_n(NodeIndex(1), 1);
    assert_eq!(bi1, vec![NodeIndex(1)]);
}

#[test]
fn collapse_toggle_restores_state() {
    let mut c = CollapseGraph::new();
    let path = vec![NodeIndex(2)];
    c.set_expanded(path.clone(), true);
    let before = c.expanded(&path);
    c.toggle(path.clone());
    assert_eq!(c.expanded(&path), !before);
    c.toggle(path.clone());
    assert_eq!(c.expanded(&path), before);
    // an unrecorded thunk is shown expanded, and toggling twice restores it
    let other = vec![NodeIndex(5)];
    assert!(c.expanded(&other));
    c.toggle(other.clone());
    assert!(!c.expanded(&other));
    c.toggle(other.clone());
    assert!(c.expanded(&other));
}

#[test]
fn collapse_set_all_and_ancestors() {
    let mut c = CollapseGraph::new();
    c.set_expanded(vec![NodeIndex(1)], true);
    c.set_expanded(vec![NodeIndex(1), NodeIndex(2)], true);
    c.set_all(false);
    assert!(!c.expanded(&vec![NodeIndex(1)]));
    assert!(!c.expanded(&vec![NodeIndex(1), NodeIndex(2)]));
    // the innermost collapsed ancestor of a node nested two thunks deep
    let deep = vec![NodeIndex(1), NodeIndex(2), NodeIndex(9)];
    assert_eq!(c.find_ancestor(&deep), Some(2));
    c.set_all(true);
    assert_eq!(c.find_ancestor(&deep), None);
}

#[test]
fn collapse_view_rewrites_folded_thunks() {
    // a thunk at the top level, collapsed and expanded
    let mut body: HyperGraph<Op> = HyperGraph::new();
    body.add_node(Node::Input, vec![], 0).unwrap();
    body.add_node(Node::Output, vec![], 0).unwrap();
    let mut g: HyperGraph<Op> = HyperGraph::new();
    g.add_node(Node::Weight(Op::Plus), vec![], 1).unwrap();
    g.add_node(Node::Thunk { args: 0, body }, vec![], 1).unwrap();

    let mut c = CollapseGraph::new();
    // an unrecorded thunk is shown expanded
    assert_eq!(c.collapse_node(&g, &vec![], NodeIndex(1)), CollapsedKind::Thunk);
    c.toggle(vec![NodeIndex(1)]);
    assert_eq!(c.collapse_node(&g, &vec![], NodeIndex(1)), CollapsedKind::Operation);
    // a leaf operation is never a thunk in the view
    assert_eq!(c.collapse_node(&g, &vec![], NodeIndex(0)), CollapsedKind::Operation);
    c.toggle(vec![NodeIndex(1)]);
    assert_eq!(c.collapse_node(&g, &vec![], NodeIndex(1)), CollapsedKind::Thunk);
}

#[test]
fn wired_slice_arity_queries() {
    let g = diamond();
    let wired = MonoidalWiredGraph::from_hypergraph(&g, &[]).unwrap();
    // a wiring layer sits before, between, and after the operation slices
    assert_eq!(wired.wirings.len(), wired.slices.len() + 1);
    for s in &wired.slices {
        assert_eq!(s.number_of_outputs(), s.ops.len());
        let _ = s.number_of_inputs();
    }
    let ws: WiredSlice<Op> = WiredSlice { ops: vec![] };
    assert_eq!(ws.number_of_inputs(), 0);
    assert_eq!(ws.number_of_outputs(), 0);
}

#[test]
fn subgraph_extraction_closure() {
    let g = diamond();
    // select only the join; its feeding branches stay outside
    let selection = vec![NodeIndex(3)];
    let (sub, mapping) = g.extract_subgraph(&selection);
    assert_eq!(mapping.len(), 1);
    let new_join = mapping[0];
    assert!(matches!(sub.get(new_join).unwrap(), Node::Weight(Op::Times)));
    assert_eq!(sub.number_of_inputs(new_join).unwrap(), 2);
    // two synthesized inputs and one synthesized output around the join
    assert_eq!(sub.len(), 4);
    let mut inputs = 0;
    let mut outputs = 0;
    for i in 0..sub.len() {
        match sub.get(NodeIndex(i)).unwrap() {
            Node::Input => inputs += 1,
            Node::Output => outputs += 1,
            _ => assert_eq!(NodeIndex(i), new_join),
        }
    }
    assert_eq!(inputs, 2);
    assert_eq!(outputs, 1);
    // every edge of the extraction stays inside it
    for i in 0..sub.len() {
        for p in sub.get_inputs(NodeIndex(i)).unwrap().iter() {
            assert!(p.node.0 < sub.len());
        }
    }
}

#[test]
fn normalization_pulls_in_private_producers() {
    let g = diamond();
    // the join's branches feed nothing else, so selecting the join pulls
    // them in; the boundary input node is not a candidate
    let selection = vec![NodeIndex(3)];
    let normalized = g.normalize_selection(&selection);
    assert_eq!(normalized, vec![NodeIndex(1), NodeIndex(2), NodeIndex(3)]);

    // a producer consumed only inside the selection joins it
    let mut h: HyperGraph<Op> = HyperGraph::new();
    h.add_node(Node::Input, vec![], 1).unwrap(); // 0
    h.add_node(Node::Weight(Op::Plus), vec![port(0, 0)], 1).unwrap(); // 1
    h.add_node(Node::Weight(Op::Minus), vec![port(1, 0)], 1).unwrap(); // 2
    h.add_node(Node::Output, vec![port(2, 0)], 0).unwrap(); // 3
    let normalized = h.normalize_selection(&vec![NodeIndex(2)]);
    assert_eq!(normalized, vec![NodeIndex(1), NodeIndex(2)]);
}

#[test]
fn restartable_traversal_resumes_after_bump() {
    let g = diamond();
    let mut it = NReachable::forward_from_n(vec![NodeIndex(0)], 0);
    assert_eq!(it.next(&g), Some(NodeIndex(0)));
    // the frontier is exhausted at depth zero but not lost
    assert_eq!(it.next(&g), None);
    it.bump_depth_limit();
    assert_eq!(it.next(&g), Some(NodeIndex(1)));
    assert_eq!(it.next(&g), Some(NodeIndex(2)));
    assert_eq!(it.next(&g), None);
    it.increase_depth_limit(2);
    assert_eq!(it.next(&g), Some(NodeIndex(3)));
    assert_eq!(it.next(&g), Some(NodeIndex(4)));
    assert_eq!(it.next(&g), None);

    let bi = bidirectional_from_n(&g, &vec![NodeIndex(1)], 1);
    assert_eq!(bi, vec![NodeIndex(1)]);
    let all = bidirectional_from_n(&g, &vec![NodeIndex(0), NodeIndex(4)], 4);
    assert_eq!(all.len(), 5);
}
