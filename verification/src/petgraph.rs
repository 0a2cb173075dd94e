//! Projection of a hypergraph into a plain directed graph for external
//! graph analyses: one node per hyperedge (producing port) and one per
//! operation or thunk, with arcs labelled by port position.

use vstd::prelude::*;
use crate::hypergraph::{HyperGraph, Node, NodeIndex, Port, PortIndex};

verus! {

/// A node of the projected graph: a hyperedge (identified by its producing
/// port), a leaf operation, or a recursively projected thunk body.
#[derive(Debug)]
pub enum PetNode<E> {
    Edge(Port),
    Operation(E),
    Thunk(PetGraph<E>),
}

/// A plain directed graph: nodes and arcs `(from, to, port position)`.
#[derive(Debug)]
pub struct PetGraph<E> {
    pub nodes: Vec<PetNode<E>>,
    pub arcs: Vec<(usize, usize, usize)>,
}

impl<E> PetGraph<E> {
    /// Every arc endpoint names an existing node.
    pub open spec fn arcs_ok(self) -> bool {
        forall|a: int|
            0 <= a < self.arcs@.len() ==> (#[trigger] self.arcs@[a]).0 < self.nodes@.len()
                && self.arcs@[a].1 < self.nodes@.len()
    }
}



/// Total output ports (hyperedges) of the first `upto` nodes.
pub open spec fn total_ports_upto<E>(g: HyperGraph<E>, upto: int) -> int
    decreases upto,
{
    if upto <= 0 {
        0
    } else {
        total_ports_upto(g, upto - 1) + g.node_outputs(upto - 1).len() as int
    }
}

/// Interior (operation or thunk) nodes among the first `upto` nodes.
pub open spec fn interior_upto<E>(g: HyperGraph<E>, upto: int) -> int
    decreases upto,
{
    if upto <= 0 {
        0
    } else {
        interior_upto(g, upto - 1) + if g.is_interior(upto - 1) {
            1int
        } else {
            0
        }
    }
}

/// The hyperedge producing at `port` has a projected node recorded.
pub open spec fn edge_recorded<E>(g: HyperGraph<E>, edge_map: Seq<(Port, usize)>, port: Port) -> bool {
    exists|e: int| 0 <= e < edge_map.len() && (#[trigger] edge_map[e]).0 == port
}

/// Every output port of the first `upto` nodes is recorded.
pub open spec fn edges_recorded<E>(g: HyperGraph<E>, edge_map: Seq<(Port, usize)>, upto: int) -> bool {
    forall|port: Port|
        #![trigger g.valid_out_port(port)]
        port.node.0 < upto && g.valid_out_port(port) ==> edge_recorded(g, edge_map, port)
}

/// Projects one level of a hypergraph: first a node per producing port
/// (the hyperedges), then a node per interior operation or thunk, with an
/// arc from each consumed hyperedge into its consumer and from each
/// producer to its hyperedges.
pub fn to_pet<E: Copy>(hypergraph: &HyperGraph<E>) -> (r: PetGraph<E>)
    requires
        hypergraph.wf(),
    ensures
        r.arcs_ok(),
        // one node per hyperedge plus one per interior node
        r.nodes@.len() == total_ports_upto(*hypergraph, hypergraph.node_count() as int)
            + interior_upto(*hypergraph, hypergraph.node_count() as int),
        forall|m: int|
            0 <= m < r.nodes@.len() ==> ((#[trigger] r.nodes@[m]) matches PetNode::Edge(p)
                ==> hypergraph.valid_out_port(p)),
    decreases *hypergraph,
{
    let n = hypergraph.len();
    let mut graph = PetGraph { nodes: Vec::new(), arcs: Vec::new() };

    // one node per hyperedge, recorded so arcs can point at it
    let mut edge_map: Vec<(Port, usize)> = Vec::new();
    let mut i: usize = 0;
    while i < n
        invariant
            hypergraph.wf(),
            n == hypergraph.node_count(),
            i <= n,
            graph.arcs@.len() == 0,
            graph.nodes@.len() == total_ports_upto(*hypergraph, i as int),
            forall|m: int|
                0 <= m < graph.nodes@.len() ==> ((#[trigger] graph.nodes@[m]) matches PetNode::Edge(
                    p,
                ) ==> hypergraph.valid_out_port(p)),
            forall|e: int| 0 <= e < edge_map@.len() ==> (#[trigger] edge_map@[e]).1
                < graph.nodes@.len(),
            edges_recorded(*hypergraph, edge_map@, i as int),
        decreases n - i,
    {
        let outs = match hypergraph.number_of_outputs(NodeIndex(i)) {
            Ok(o) => o,
            Err(_) => {
                proof {
                    assert(false);
                }
                return graph;
            }
        };
        let mut p: usize = 0;
        while p < outs
            invariant
                hypergraph.wf(),
                n == hypergraph.node_count(),
                i < n,
                outs == hypergraph.node_outputs(i as int).len(),
                p <= outs,
                graph.arcs@.len() == 0,
                graph.nodes@.len() == total_ports_upto(*hypergraph, i as int) + p,
                forall|m: int|
                    0 <= m < graph.nodes@.len() ==> ((#[trigger] graph.nodes@[m]) matches PetNode::Edge(
                        p2,
                    ) ==> hypergraph.valid_out_port(p2)),
                forall|e: int| 0 <= e < edge_map@.len() ==> (#[trigger] edge_map@[e]).1
                    < graph.nodes@.len(),
                edges_recorded(*hypergraph, edge_map@, i as int),
                forall|port2: Port|
                    port2.node == NodeIndex(i) && port2.index.0 < p ==> #[trigger] edge_recorded(
                        *hypergraph,
                        edge_map@,
                        port2,
                    ),
            decreases outs - p,
        {
            let port = Port { node: NodeIndex(i), index: PortIndex(p) };
            let pos = graph.nodes.len();
            graph.nodes.push(PetNode::Edge(port));
            let ghost pre_map = edge_map@;
            edge_map.push((port, pos));
            proof {
                assert(edge_map@[edge_map@.len() - 1].0 == port);
                assert forall|port2: Port|
                    #![trigger hypergraph.valid_out_port(port2)]
                    port2.node.0 < i && hypergraph.valid_out_port(port2) implies edge_recorded(
                    *hypergraph,
                    edge_map@,
                    port2,
                ) by {
                    assert(edge_recorded(*hypergraph, pre_map, port2));
                    let e0 = choose|e0: int|
                        0 <= e0 < pre_map.len() && (#[trigger] pre_map[e0]).0 == port2;
                    assert(edge_map@[e0].0 == port2);
                }
                assert forall|port2: Port|
                    port2.node == NodeIndex(i) && port2.index.0 < p + 1 implies #[trigger] edge_recorded(
                    *hypergraph,
                    edge_map@,
                    port2,
                ) by {
                    if port2.index.0 < p {
                        assert(edge_recorded(*hypergraph, pre_map, port2));
                        let e0 = choose|e0: int|
                            0 <= e0 < pre_map.len() && (#[trigger] pre_map[e0]).0 == port2;
                        assert(edge_map@[e0].0 == port2);
                    } else {
                        assert(port2 == port);
                        assert(edge_map@[edge_map@.len() - 1].0 == port2);
                    }
                }
            }
            p += 1;
        }
        proof {
            assert forall|port2: Port|
                #![trigger hypergraph.valid_out_port(port2)]
                port2.node.0 < i + 1 && hypergraph.valid_out_port(port2) implies edge_recorded(
                *hypergraph,
                edge_map@,
                port2,
            ) by {
                if port2.node.0 == i {
                    assert(port2.node == NodeIndex(i));
                    assert(port2.index.0 < outs);
                    assert(edge_recorded(*hypergraph, edge_map@, port2));
                }
            }
        }
        i += 1;
    }

    // one node per interior operation or thunk, with its arcs
    let mut i2: usize = 0;
    while i2 < n
        invariant
            hypergraph.wf(),
            n == hypergraph.node_count(),
            i2 <= n,
            graph.arcs_ok(),
            graph.nodes@.len() == total_ports_upto(*hypergraph, n as int) + interior_upto(
                *hypergraph,
                i2 as int,
            ),
            forall|m: int|
                0 <= m < graph.nodes@.len() ==> ((#[trigger] graph.nodes@[m]) matches PetNode::Edge(
                    p2,
                ) ==> hypergraph.valid_out_port(p2)),
            forall|e: int| 0 <= e < edge_map@.len() ==> (#[trigger] edge_map@[e]).1
                < graph.nodes@.len(),
            edges_recorded(*hypergraph, edge_map@, n as int),
        decreases n - i2,
    {
        let node = NodeIndex(i2);
        let data = match hypergraph.get(node) {
            Ok(d) => d,
            Err(_) => {
                proof {
                    assert(false);
                }
                return graph;
            }
        };
        let pet: Option<PetNode<E>> = match data {
            Node::Weight(w) => Some(PetNode::Operation(*w)),
            Node::Thunk { body, .. } => {
                proof {
                    crate::hypergraph::lemma_body_decreases(*hypergraph, i2 as int);
                }
                Some(PetNode::Thunk(to_pet(body)))
            }
            Node::Input => None,
            Node::Output => None,
        };
        match pet {
            Some(pn) => {
                let pet_idx = graph.nodes.len();
                let ghost pre_nodes = graph.nodes@;
                graph.nodes.push(pn);
                proof {
                    assert(hypergraph.is_interior(i2 as int));
                    assert(!(graph.nodes@[graph.nodes@.len() - 1] matches PetNode::Edge(p2)));
                    assert forall|m: int|
                        0 <= m < graph.nodes@.len() implies ((#[trigger] graph.nodes@[m])
                        matches PetNode::Edge(p2) ==> hypergraph.valid_out_port(p2)) by {
                        if m < pre_nodes.len() {
                            assert(graph.nodes@[m] == pre_nodes[m]);
                        }
                    }
                }
                // arcs from each consumed hyperedge into this node
                let inps = match hypergraph.get_inputs(node) {
                    Ok(v) => v,
                    Err(_) => {
                        proof {
                            assert(false);
                        }
                        return graph;
                    }
                };
                let mut k: usize = 0;
                while k < inps.len()
                    invariant
                        hypergraph.wf(),
                        n == hypergraph.node_count(),
                        i2 < n,
                        hypergraph.is_interior(i2 as int),
                        graph.nodes@.len() == total_ports_upto(*hypergraph, n as int)
                            + interior_upto(*hypergraph, i2 as int) + 1,
                        forall|m: int|
                            0 <= m < graph.nodes@.len() ==> ((#[trigger] graph.nodes@[m])
                                matches PetNode::Edge(p2) ==> hypergraph.valid_out_port(p2)),
                        pet_idx < graph.nodes@.len(),
                        inps@ == hypergraph.node_inputs(i2 as int),
                        k <= inps@.len(),
                        graph.arcs_ok(),
                        forall|e: int| 0 <= e < edge_map@.len() ==> (#[trigger] edge_map@[e]).1
                            < graph.nodes@.len(),
                        edges_recorded(*hypergraph, edge_map@, n as int),
                    decreases inps@.len() - k,
                {
                    let src = inps[k];
                    proof {
                        assert(hypergraph.node_wf(i2 as int));
                        assert(hypergraph.valid_out_port(src));
                        assert(edge_recorded(*hypergraph, edge_map@, src));
                    }
                    let e = match lookup_edge(&edge_map, src) {
                        Some(e) => e,
                        None => {
                            proof {
                                assert(false);
                            }
                            return graph;
                        }
                    };
                    graph.arcs.push((e, pet_idx, k));
                    k += 1;
                }
                // arcs from this node to each of its hyperedges
                let outs = match hypergraph.number_of_outputs(node) {
                    Ok(o) => o,
                    Err(_) => {
                        proof {
                            assert(false);
                        }
                        return graph;
                    }
                };
                let mut p: usize = 0;
                while p < outs
                    invariant
                        hypergraph.wf(),
                        n == hypergraph.node_count(),
                        i2 < n,
                        hypergraph.is_interior(i2 as int),
                        node == NodeIndex(i2 as usize),
                        graph.nodes@.len() == total_ports_upto(*hypergraph, n as int)
                            + interior_upto(*hypergraph, i2 as int) + 1,
                        forall|m: int|
                            0 <= m < graph.nodes@.len() ==> ((#[trigger] graph.nodes@[m])
                                matches PetNode::Edge(p2) ==> hypergraph.valid_out_port(p2)),
                        pet_idx < graph.nodes@.len(),
                        outs == hypergraph.node_outputs(i2 as int).len(),
                        p <= outs,
                        graph.arcs_ok(),
                        forall|e: int| 0 <= e < edge_map@.len() ==> (#[trigger] edge_map@[e]).1
                            < graph.nodes@.len(),
                        edges_recorded(*hypergraph, edge_map@, n as int),
                    decreases outs - p,
                {
                    let port = Port { node, index: PortIndex(p) };
                    proof {
                        assert(hypergraph.valid_out_port(port));
                        assert(edge_recorded(*hypergraph, edge_map@, port));
                    }
                    let e = match lookup_edge(&edge_map, port) {
                        Some(e) => e,
                        None => {
                            proof {
                                assert(false);
                            }
                            return graph;
                        }
                    };
                    graph.arcs.push((pet_idx, e, p));
                    p += 1;
                }
            }
            None => {}
        }
        proof {
            assert(interior_upto(*hypergraph, i2 + 1) == interior_upto(*hypergraph, i2 as int)
                + if hypergraph.is_interior(i2 as int) {
                1int
            } else {
                0
            });
        }
        i2 += 1;
    }
    graph
}

/// The projected node recorded for a producing port.
fn lookup_edge(entries: &Vec<(Port, usize)>, p: Port) -> (r: Option<usize>)
    ensures
        match r {
            Some(e) => exists|q: int|
                0 <= q < entries@.len() && (#[trigger] entries@[q]).0 == p && entries@[q].1 == e,
            None => !exists|q: int| 0 <= q < entries@.len() && (#[trigger] entries@[q]).0 == p,
        },
{
    let mut i: usize = 0;
    while i < entries.len()
        invariant
            i <= entries@.len(),
            forall|q: int| 0 <= q < i ==> (#[trigger] entries@[q]).0 != p,
        decreases entries@.len() - i,
    {
        if entries[i].0.node.0 == p.node.0 && entries[i].0.index.0 == p.index.0 {
            proof {
                assert(entries@[i as int].0 == p);
            }
            return Some(entries[i].1);
        }
        i += 1;
    }
    None
}

} // verus!
