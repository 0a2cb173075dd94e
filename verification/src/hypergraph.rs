//! Core hypergraph arena: indexed node storage, structural queries, and the
//! append-only construction primitive `add_node`.
//!
//! Each node stores, per input port, the single source `Port` it is wired
//! from, and, per output port, the list of consumer `Port`s wired to it
//! (a hyperedge with fan-out).  Nodes are only ever wired to already-existing
//! sources, so every edge runs from a lower node index to a higher one; this
//! makes acyclicity an invariant of construction.

use vstd::prelude::*;

verus! {

broadcast use vstd::seq_lib::lemma_seq_contains_after_push;

/// Index of a node in a hypergraph's arena.
#[derive(Clone, Copy, PartialEq, Eq, Structural, Hash, Debug)]
pub struct NodeIndex(pub usize);

/// Index of a port on one node.
#[derive(Clone, Copy, PartialEq, Eq, Structural, Hash, Debug)]
pub struct PortIndex(pub usize);

/// Address of one output (or input) slot of a node.
#[derive(Clone, Copy, PartialEq, Eq, Structural, Hash, Debug)]
pub struct Port {
    pub node: NodeIndex,
    pub index: PortIndex,
}


impl From<(usize, usize)> for Port {
    /// A port from a `(node, port)` index pair.
    fn from(value: (usize, usize)) -> (r: Port) {
        Port { node: NodeIndex(value.0), index: PortIndex(value.1) }
    }
}

impl vstd::std_specs::convert::FromSpecImpl<(usize, usize)> for Port {
    open spec fn obeys_from_spec() -> bool {
        true
    }

    open spec fn from_spec(value: (usize, usize)) -> Port {
        Port { node: NodeIndex(value.0), index: PortIndex(value.1) }
    }
}

/// Structural reference errors raised during graph construction.
#[derive(Clone, Copy, PartialEq, Eq, Structural, Debug)]
pub enum HyperGraphError {
    UnknownNode(NodeIndex),
    UnknownPort(Port),
}

/// A node of a hypergraph: a weighted operation, a boundary marker, or a
/// thunk owning a nested body graph.
#[derive(Debug)]
pub enum Node<E> {
    Weight(E),
    Input,
    Output,
    Thunk { args: usize, body: HyperGraph<E> },
}

impl<E> Node<E> {
    pub fn is_input(&self) -> (r: bool)
        ensures
            r == (self is Input),
    {
        matches!(self, Node::Input)
    }

    pub fn is_output(&self) -> (r: bool)
        ensures
            r == (self is Output),
    {
        matches!(self, Node::Output)
    }
}

/// Arena record for one node: its data, its input wiring, and the consumer
/// list of each of its output ports.
#[derive(Debug)]
pub struct NodeInfo<E> {
    data: Node<E>,
    inputs: Vec<Port>,
    outputs: Vec<Vec<Port>>,
}

/// Hypergraph with node weights `E`.
#[derive(Debug)]
pub struct HyperGraph<E> {
    nodes: Vec<NodeInfo<E>>,
}

impl<E> HyperGraph<E> {
    /// Number of nodes in the arena.
    pub closed spec fn node_count(self) -> nat {
        self.nodes@.len()
    }

    /// The data of node `i`.
    pub closed spec fn node_data(self, i: int) -> Node<E> {
        self.nodes@[i].data
    }

    /// The source ports wired into node `i`, one per input port.
    pub closed spec fn node_inputs(self, i: int) -> Seq<Port> {
        self.nodes@[i].inputs@
    }

    /// The consumer lists of node `i`, one per output port.
    pub closed spec fn node_outputs(self, i: int) -> Seq<Seq<Port>> {
        Seq::new(self.nodes@[i].outputs@.len(), |p: int| self.nodes@[i].outputs@[p]@)
    }

    /// `p` addresses an existing output port of an existing node.
    pub open spec fn valid_out_port(self, p: Port) -> bool {
        &&& p.node.0 < self.node_count()
        &&& p.index.0 < self.node_outputs(p.node.0 as int).len()
    }

    /// Well-formedness of the record of node `i`, not counting nested bodies:
    /// sources exist, run upward in index order, and agree with the source's
    /// consumer list; consumers exist, run downward, and agree with the
    /// consumer's input list; boundary nodes have no ports on the closed side.
    pub open spec fn node_wf(self, i: int) -> bool {
        &&& forall|k: int|
            0 <= k < self.node_inputs(i).len() ==> {
                let src = #[trigger] self.node_inputs(i)[k];
                &&& src.node.0 < i
                &&& self.valid_out_port(src)
                &&& self.node_outputs(src.node.0 as int)[src.index.0 as int].contains(
                    Port { node: NodeIndex(i as usize), index: PortIndex(k as usize) },
                )
            }
        &&& forall|p: int, j: int|
            0 <= p < self.node_outputs(i).len() && 0 <= j < self.node_outputs(i)[p].len() ==> {
                let c = #[trigger] self.node_outputs(i)[p][j];
                &&& i < c.node.0 < self.node_count()
                &&& c.index.0 < self.node_inputs(c.node.0 as int).len()
                &&& self.node_inputs(c.node.0 as int)[c.index.0 as int] == Port {
                    node: NodeIndex(i as usize),
                    index: PortIndex(p as usize),
                }
            }
        &&& forall|p: int, j1: int, j2: int|
            0 <= p < self.node_outputs(i).len() && 0 <= j1 < j2 < self.node_outputs(i)[p].len()
                ==> #[trigger] self.node_outputs(i)[p][j1] != #[trigger] self.node_outputs(i)[p][j2]
        &&& (self.node_data(i) is Input ==> self.node_inputs(i).len() == 0)
        &&& (self.node_data(i) is Output ==> self.node_outputs(i).len() == 0)
        &&& (self.node_data(i) matches Node::Thunk { args, body }
            ==> args <= self.node_inputs(i).len())
    }

    /// Well-formedness of the whole graph, nested thunk bodies included.
    pub open spec fn wf(self) -> bool
        decreases self,
    {
        &&& forall|i: int| 0 <= i < self.node_count() ==> self.node_wf(i)
        &&& forall|i: int|
            0 <= i < self.node_count()
                ==> match #[trigger] self.node_data(i) {
                    Node::Thunk { args, body } => body.wf(),
                    _ => true,
                }
    }

    /// Generate a new, empty graph.
    pub fn new() -> (g: Self)
        ensures
            g.node_count() == 0,
            g.wf(),
    {
        HyperGraph { nodes: Vec::new() }
    }

    /// All entries of `inputs` address existing output ports of `self`.
    pub open spec fn all_inputs_valid(self, inputs: Seq<Port>) -> bool {
        forall|j: int| 0 <= j < inputs.len() ==> self.valid_out_port(#[trigger] inputs[j])
    }

    /// The error `add_node` reports for the first entry of `inputs` that does
    /// not address an existing output port.
    pub open spec fn add_node_error(self, inputs: Seq<Port>) -> HyperGraphError
        decreases inputs.len(),
    {
        if inputs.len() == 0 {
            HyperGraphError::UnknownNode(NodeIndex(0))  // unreachable: some entry is invalid
        } else if !self.valid_out_port(inputs[0]) {
            if inputs[0].node.0 >= self.node_count() {
                HyperGraphError::UnknownNode(inputs[0].node)
            } else {
                HyperGraphError::UnknownPort(inputs[0])
            }
        } else {
            self.add_node_error(inputs.drop_first())
        }
    }

    /// The data this node would present to `add_node`'s contract.
    pub open spec fn add_node_ok(self, post: Self, data: Node<E>, inputs: Seq<Port>, output_ports: int) -> bool {
        let n = self.node_count() as int;
        &&& post.node_count() == n + 1
        &&& post.node_data(n) == data
        &&& post.node_inputs(n) == inputs
        &&& post.node_outputs(n) =~= Seq::new(output_ports as nat, |p: int| Seq::<Port>::empty())
        &&& forall|i: int| 0 <= i < n ==> post.node_data(i) == self.node_data(i)
        &&& forall|i: int| 0 <= i < n ==> post.node_inputs(i) == self.node_inputs(i)
        &&& forall|i: int| 0 <= i < n ==> post.node_outputs(i).len() == self.node_outputs(i).len()
        &&& forall|i: int, p: int|
            0 <= i < n && 0 <= p < self.node_outputs(i).len()
                ==> #[trigger] post.node_outputs(i)[p] == self.node_outputs(i)[p]
                    + consumers_added(inputs, Port { node: NodeIndex(i as usize), index: PortIndex(p as usize) }, n as usize)
    }
    /// Adds a new node with the given data, wired to obtain its inputs from
    /// the listed source ports, with `output_ports` fresh (unconsumed) output
    /// ports.  Every entry of `inputs` is validated against the existing
    /// nodes; on the first invalid entry the graph is left untouched
    /// (all-or-nothing) and the matching error is returned.
    pub fn add_node(&mut self, data: Node<E>, inputs: Vec<Port>, output_ports: usize) -> (r: Result<
        NodeIndex,
        HyperGraphError,
    >)
        requires
            old(self).wf(),
            data is Input ==> inputs@.len() == 0,
            data is Output ==> output_ports == 0,
            data matches Node::Thunk { args, body } ==> body.wf() && args <= inputs@.len(),
        ensures
            final(self).wf(),
            old(self).node_count() <= usize::MAX,
            old(self).all_inputs_valid(inputs@) ==> {
                &&& r == Ok::<NodeIndex, HyperGraphError>(NodeIndex(old(self).node_count() as usize))
                &&& old(self).add_node_ok(*final(self), data, inputs@, output_ports as int)
            },
            !old(self).all_inputs_valid(inputs@) ==> {
                &&& r == Err::<NodeIndex, HyperGraphError>(old(self).add_node_error(inputs@))
                &&& *final(self) == *old(self)
            },
    {
        let ghost g0 = *self;
        let new_index = self.nodes.len();

        // Validation pass: find the first invalid entry, touching nothing.
        let mut j: usize = 0;
        while j < inputs.len()
            invariant
                *self == g0,
                g0 == *old(self),
                g0.wf(),
                j <= inputs@.len(),
                forall|k: int| 0 <= k < j ==> g0.valid_out_port(#[trigger] inputs@[k]),
            decreases inputs@.len() - j,
        {
            let p = inputs[j];
            if p.node.0 >= self.nodes.len() {
                proof {
                    lemma_add_node_error(g0, inputs@, j as int);
                }
                return Err(HyperGraphError::UnknownNode(p.node));
            }
            if p.index.0 >= self.nodes[p.node.0].outputs.len() {
                proof {
                    lemma_add_node_error(g0, inputs@, j as int);
                }
                return Err(HyperGraphError::UnknownPort(p));
            }
            j += 1;
        }

        // Wiring pass: record the new node as a consumer of each source port.
        let mut j: usize = 0;
        while j < inputs.len()
            invariant
                g0.all_inputs_valid(inputs@),
                new_index == g0.node_count(),
                j <= inputs@.len(),
                self.node_count() == g0.node_count(),
                forall|i: int| 0 <= i < g0.node_count() ==> self.node_data(i) == g0.node_data(i),
                forall|i: int|
                    0 <= i < g0.node_count() ==> self.node_inputs(i) == g0.node_inputs(i),
                forall|i: int|
                    0 <= i < g0.node_count()
                        ==> self.node_outputs(i).len() == g0.node_outputs(i).len(),
                forall|i: int, p: int|
                    0 <= i < g0.node_count() && 0 <= p < g0.node_outputs(i).len()
                        ==> #[trigger] self.node_outputs(i)[p] =~= g0.node_outputs(i)[p]
                            + consumers_added(
                            inputs@.take(j as int),
                            Port { node: NodeIndex(i as usize), index: PortIndex(p as usize) },
                            new_index,
                        ),
            decreases inputs@.len() - j,
        {
            let p = inputs[j];
            let entry = Port { node: NodeIndex(new_index), index: PortIndex(j) };
            let ghost pre = *self;
            self.nodes[p.node.0].outputs[p.index.0].push(entry);
            proof {
                assert(vstd::std_specs::vec::spec_vec_len(&pre.nodes@[p.node.0 as int].outputs)
                    == pre.nodes@[p.node.0 as int].outputs@.len());
                assert(inputs@.take(j + 1).drop_last() =~= inputs@.take(j as int));
                assert(inputs@.take(j + 1).last() == inputs@[j as int]);
                assert forall|i: int, q: int|
                    0 <= i < g0.node_count() && 0 <= q < g0.node_outputs(i).len()
                    implies #[trigger] self.node_outputs(i)[q] =~= g0.node_outputs(i)[q]
                        + consumers_added(
                        inputs@.take(j + 1),
                        Port { node: NodeIndex(i as usize), index: PortIndex(q as usize) },
                        new_index,
                    ) by {
                    let src = Port { node: NodeIndex(i as usize), index: PortIndex(q as usize) };
                    if i == p.node.0 && q == p.index.0 {
                        assert(inputs@.take(j + 1).last() == src);
                        assert(self.node_outputs(i)[q] =~= pre.node_outputs(i)[q].push(entry));
                    } else {
                        if i != p.node.0 {
                            assert(self.nodes@[i] == pre.nodes@[i]);
                        } else {
                            assert(q < pre.nodes@[i].outputs@.len());
                            assert(q as usize != p.index.0);
                            assert(self.nodes@[i].outputs@[q] == pre.nodes@[i].outputs@[q]);
                        }
                        assert(inputs@.take(j + 1).last() != src);
                        assert(self.node_outputs(i)[q] =~= pre.node_outputs(i)[q]);
                    }
                }
            }
            j += 1;
        }

        // Allocate the new record with empty consumer lists.
        let mut outputs: Vec<Vec<Port>> = Vec::new();
        while outputs.len() < output_ports
            invariant
                outputs@.len() <= output_ports,
                forall|p: int| 0 <= p < outputs@.len() ==> #[trigger] outputs@[p]@ =~= Seq::<Port>::empty(),
            decreases output_ports - outputs@.len(),
        {
            outputs.push(Vec::new());
        }

        let ghost pre_push = *self;
        self.nodes.push(NodeInfo { data, inputs, outputs });

        proof {
            assert(inputs@.take(inputs@.len() as int) =~= inputs@);
            assert(self.node_count() == g0.node_count() + 1);
            let n = g0.node_count() as int;
            assert(self.node_data(n) == data);
            assert(self.node_inputs(n) == inputs@);
            assert(self.node_outputs(n) =~= Seq::new(output_ports as nat, |p: int| Seq::<Port>::empty()));
            assert forall|i: int| 0 <= i < n implies self.node_data(i) == g0.node_data(i)
                && self.node_inputs(i) == g0.node_inputs(i)
                && self.node_outputs(i).len() == g0.node_outputs(i).len() by {
                assert(self.nodes@[i] == pre_push.nodes@[i]);
                assert(self.node_outputs(i) =~= pre_push.node_outputs(i));
            }
            assert forall|i: int, p: int| 0 <= i < n && 0 <= p < g0.node_outputs(i).len()
                implies #[trigger] self.node_outputs(i)[p] == g0.node_outputs(i)[p]
                    + consumers_added(
                    inputs@,
                    Port { node: NodeIndex(i as usize), index: PortIndex(p as usize) },
                    new_index,
                ) by {
                assert(self.nodes@[i] == pre_push.nodes@[i]);
                assert(self.node_outputs(i) =~= pre_push.node_outputs(i));
            }
            lemma_add_node_wf(g0, *self, data, inputs@, output_ports as int);
        }

        Ok(NodeIndex(new_index))
    }

    /// The hyperedges of the graph in insertion order: each producing
    /// port, in node order then port order, with its consumer list.
    pub fn edges(&self) -> (r: Vec<(Port, Vec<Port>)>)
        ensures
            forall|m: int| 0 <= m < r@.len() ==> {
                let (p, cs) = #[trigger] r@[m];
                &&& self.valid_out_port(p)
                &&& cs@ == self.node_outputs(p.node.0 as int)[p.index.0 as int]
            },
            forall|p: Port|
                self.valid_out_port(p) ==> exists|m: int|
                    0 <= m < r@.len() && (#[trigger] r@[m]).0 == p,
            forall|m1: int, m2: int|
                0 <= m1 < m2 < r@.len() ==> ((#[trigger] r@[m1]).0.node.0 < (#[trigger] r@[m2]).0.node.0
                    || (r@[m1].0.node.0 == r@[m2].0.node.0 && r@[m1].0.index.0 < r@[m2].0.index.0)),
    {
        let mut r: Vec<(Port, Vec<Port>)> = Vec::new();
        let n = self.nodes.len();
        let mut i: usize = 0;
        while i < n
            invariant
                n == self.node_count(),
                i <= n,
                forall|m: int| 0 <= m < r@.len() ==> {
                    let (p, cs) = #[trigger] r@[m];
                    &&& self.valid_out_port(p)
                    &&& p.node.0 < i
                    &&& cs@ == self.node_outputs(p.node.0 as int)[p.index.0 as int]
                },
                forall|p: Port|
                    p.node.0 < i && self.valid_out_port(p) ==> exists|m: int|
                        0 <= m < r@.len() && (#[trigger] r@[m]).0 == p,
                forall|m1: int, m2: int|
                    0 <= m1 < m2 < r@.len() ==> ((#[trigger] r@[m1]).0.node.0 < (
                    #[trigger] r@[m2]).0.node.0 || (r@[m1].0.node.0 == r@[m2].0.node.0
                        && r@[m1].0.index.0 < r@[m2].0.index.0)),
            decreases n - i,
        {
            let outs = &self.nodes[i].outputs;
            let mut q: usize = 0;
            while q < outs.len()
                invariant
                    n == self.node_count(),
                    i < n,
                    outs@.len() == self.node_outputs(i as int).len(),
                    forall|q2: int|
                        0 <= q2 < outs@.len() ==> #[trigger] outs@[q2]@ == self.node_outputs(
                            i as int,
                        )[q2],
                    q <= outs@.len(),
                    forall|m: int| 0 <= m < r@.len() ==> {
                        let (p, cs) = #[trigger] r@[m];
                        &&& self.valid_out_port(p)
                        &&& (p.node.0 < i || (p.node.0 == i && p.index.0 < q))
                        &&& cs@ == self.node_outputs(p.node.0 as int)[p.index.0 as int]
                    },
                    forall|p: Port|
                        p.node.0 < i && self.valid_out_port(p) ==> exists|m: int|
                            0 <= m < r@.len() && (#[trigger] r@[m]).0 == p,
                    forall|p: Port|
                        p.node.0 == i && p.index.0 < q ==> exists|m: int|
                            0 <= m < r@.len() && (#[trigger] r@[m]).0 == p,
                    forall|m1: int, m2: int|
                        0 <= m1 < m2 < r@.len() ==> ((#[trigger] r@[m1]).0.node.0 < (
                        #[trigger] r@[m2]).0.node.0 || (r@[m1].0.node.0 == r@[m2].0.node.0
                            && r@[m1].0.index.0 < r@[m2].0.index.0)),
                decreases outs@.len() - q,
            {
                let consumers = clone_ports(&outs[q]);
                let ghost pre = r@;
                r.push((Port { node: NodeIndex(i), index: PortIndex(q) }, consumers));
                proof {
                    assert(r@[r@.len() - 1].0 == Port { node: NodeIndex(i), index: PortIndex(q) });
                    assert forall|p: Port| p.node.0 == i && p.index.0 < q + 1 implies exists|m: int|
                        0 <= m < r@.len() && (#[trigger] r@[m]).0 == p by {
                        if p.index.0 < q {
                            let m0 = choose|m0: int|
                                0 <= m0 < pre.len() && (#[trigger] pre[m0]).0 == p;
                            assert(r@[m0].0 == p);
                        } else {
                            assert(p == Port { node: NodeIndex(i), index: PortIndex(q) });
                            assert(r@[r@.len() - 1].0 == p);
                        }
                    }
                    assert forall|p: Port| p.node.0 < i && self.valid_out_port(p)
                        implies exists|m: int| 0 <= m < r@.len() && (#[trigger] r@[m]).0 == p by {
                        let m0 = choose|m0: int| 0 <= m0 < pre.len() && (#[trigger] pre[m0]).0 == p;
                        assert(r@[m0].0 == p);
                    }
                }
                q += 1;
            }
            proof {
                assert forall|p: Port| p.node.0 < i + 1 && self.valid_out_port(p)
                    implies exists|m: int| 0 <= m < r@.len() && (#[trigger] r@[m]).0 == p by {
                    if p.node.0 == i {
                        assert(p.index.0 < self.node_outputs(i as int).len());
                    }
                }
            }
            i += 1;
        }
        r
    }

    /// Pure lookup of a node's data.
    pub fn get(&self, key: NodeIndex) -> (r: Result<&Node<E>, HyperGraphError>)
        ensures
            key.0 < self.node_count() ==> (r matches Ok(n) && *n == self.node_data(key.0 as int)),
            key.0 >= self.node_count() ==> r == Err::<&Node<E>, HyperGraphError>(
                HyperGraphError::UnknownNode(key),
            ),
    {
        if key.0 < self.nodes.len() {
            Ok(&self.nodes[key.0].data)
        } else {
            Err(HyperGraphError::UnknownNode(key))
        }
    }

    /// The source port wired into each input port of a node.
    pub fn get_inputs(&self, key: NodeIndex) -> (r: Result<&Vec<Port>, HyperGraphError>)
        ensures
            key.0 < self.node_count() ==> (r matches Ok(v) && v@ == self.node_inputs(
                key.0 as int,
            )),
            key.0 >= self.node_count() ==> r == Err::<&Vec<Port>, HyperGraphError>(
                HyperGraphError::UnknownNode(key),
            ),
    {
        if key.0 < self.nodes.len() {
            Ok(&self.nodes[key.0].inputs)
        } else {
            Err(HyperGraphError::UnknownNode(key))
        }
    }

    /// The consumer list of each output port of a node.
    pub fn get_outputs(&self, key: NodeIndex) -> (r: Result<&Vec<Vec<Port>>, HyperGraphError>)
        ensures
            key.0 < self.node_count() ==> (r matches Ok(v) && {
                &&& v@.len() == self.node_outputs(key.0 as int).len()
                &&& forall|p: int|
                    0 <= p < v@.len() ==> #[trigger] v@[p]@ == self.node_outputs(key.0 as int)[p]
            }),
            key.0 >= self.node_count() ==> r == Err::<&Vec<Vec<Port>>, HyperGraphError>(
                HyperGraphError::UnknownNode(key),
            ),
    {
        if key.0 < self.nodes.len() {
            Ok(&self.nodes[key.0].outputs)
        } else {
            Err(HyperGraphError::UnknownNode(key))
        }
    }

    /// Number of input ports of a node.
    pub fn number_of_inputs(&self, key: NodeIndex) -> (r: Result<usize, HyperGraphError>)
        ensures
            key.0 < self.node_count() ==> r == Ok::<usize, HyperGraphError>(
                self.node_inputs(key.0 as int).len() as usize,
            ) && self.node_inputs(key.0 as int).len() <= usize::MAX,
            key.0 >= self.node_count() ==> r == Err::<usize, HyperGraphError>(
                HyperGraphError::UnknownNode(key),
            ),
    {
        if key.0 < self.nodes.len() {
            Ok(self.nodes[key.0].inputs.len())
        } else {
            Err(HyperGraphError::UnknownNode(key))
        }
    }

    /// Number of output ports of a node.
    pub fn number_of_outputs(&self, key: NodeIndex) -> (r: Result<usize, HyperGraphError>)
        ensures
            key.0 < self.node_count() ==> r == Ok::<usize, HyperGraphError>(
                self.node_outputs(key.0 as int).len() as usize,
            ) && self.node_outputs(key.0 as int).len() <= usize::MAX,
            key.0 >= self.node_count() ==> r == Err::<usize, HyperGraphError>(
                HyperGraphError::UnknownNode(key),
            ),
    {
        if key.0 < self.nodes.len() {
            Ok(self.nodes[key.0].outputs.len())
        } else {
            Err(HyperGraphError::UnknownNode(key))
        }
    }

    /// The nodes of the graph in insertion order.
    pub fn nodes(&self) -> (r: Vec<NodeIndex>)
        ensures
            r@.len() == self.node_count(),
            forall|i: int| 0 <= i < r@.len() ==> #[trigger] r@[i] == NodeIndex(i as usize),
    {
        let mut r: Vec<NodeIndex> = Vec::new();
        let n = self.nodes.len();
        while r.len() < n
            invariant
                r@.len() <= n,
                n == self.node_count(),
                forall|i: int| 0 <= i < r@.len() ==> #[trigger] r@[i] == NodeIndex(i as usize),
            decreases n - r@.len(),
        {
            r.push(NodeIndex(r.len()));
        }
        r
    }

    /// Walks through nested thunk bodies following `path`; `None` as soon as
    /// a step does not name a thunk node.
    pub open spec fn recurse_spec(self, path: Seq<NodeIndex>) -> Option<HyperGraph<E>>
        decreases path.len(),
    {
        if path.len() == 0 {
            Some(self)
        } else if path[0].0 < self.node_count() && (self.node_data(path[0].0 as int) matches Node::Thunk { args, body }) {
            (self.node_data(path[0].0 as int)->body).recurse_spec(path.drop_first())
        } else {
            None
        }
    }

    /// Follows `path` through nested thunk bodies.
    pub fn recurse(&self, path: &[NodeIndex]) -> (r: Option<&HyperGraph<E>>)
        ensures
            match r {
                Some(g) => self.recurse_spec(path@) == Some(*g),
                None => self.recurse_spec(path@) is None,
            },
            self.wf() ==> match r {
                Some(g) => g.wf(),
                None => true,
            },
    {
        let mut cur: &HyperGraph<E> = self;
        let mut i: usize = 0;
        proof {
            assert(path@.skip(0) =~= path@);
        }
        while i < path.len()
            invariant
                i <= path@.len(),
                self.recurse_spec(path@) == cur.recurse_spec(path@.skip(i as int)),
                self.wf() ==> cur.wf(),
            decreases path@.len() - i,
        {
            proof {
                assert(path@.skip(i as int)[0] == path@[i as int]);
                assert(path@.skip(i as int).drop_first() =~= path@.skip(i + 1));
            }
            let step = path[i];
            if step.0 >= cur.nodes.len() {
                return None;
            }
            match &cur.nodes[step.0].data {
                Node::Thunk { body, .. } => {
                    cur = body;
                }
                _ => {
                    return None;
                }
            }
            i += 1;
        }
        proof {
            assert(path@.skip(path@.len() as int) =~= Seq::<NodeIndex>::empty());
        }
        Some(cur)
    }
}

/// A sequence of node indices in strictly increasing order (hence duplicate
/// free).
pub open spec fn ascending(s: Seq<NodeIndex>) -> bool {
    forall|a: int, b: int| 0 <= a < b < s.len() ==> #[trigger] s[a].0 < #[trigger] s[b].0
}

/// Node `i` occurs in some rank of `ranks`.
pub open spec fn in_ranks(ranks: Seq<Seq<NodeIndex>>, i: int) -> bool {
    exists|j: int|
        0 <= j < ranks.len() && #[trigger] ranks[j].contains(NodeIndex(i as usize))
}

impl<E> HyperGraph<E> {
    /// Node `i` is neither an `Input` nor an `Output` boundary marker.
    pub open spec fn is_interior(self, i: int) -> bool {
        &&& 0 <= i < self.node_count()
        &&& !(self.node_data(i) is Input)
        &&& !(self.node_data(i) is Output)
    }

    /// Node `c` is an `Output` node, or occurs in a rank strictly before `j`.
    pub open spec fn consumer_in_earlier_rank(self, ranks: Seq<Seq<NodeIndex>>, j: int, c: int) -> bool {
        ||| self.node_data(c) is Output
        ||| exists|j2: int| 0 <= j2 < j && #[trigger] ranks[j2].contains(NodeIndex(c as usize))
    }

    /// Every consumer of node `i` is an `Output` node or sits in a rank
    /// strictly before `j`.
    pub open spec fn node_layered(self, ranks: Seq<Seq<NodeIndex>>, j: int, i: int) -> bool {
        forall|p: int, k: int|
            0 <= p < self.node_outputs(i).len() && 0 <= k < self.node_outputs(i)[p].len()
                ==> self.consumer_in_earlier_rank(
                ranks,
                j,
                (#[trigger] self.node_outputs(i)[p][k]).node.0 as int,
            )
    }

    /// Every node of every rank has all its consumers in strictly earlier
    /// ranks or among the `Output` nodes.
    pub open spec fn ranks_layered(self, ranks: Seq<Seq<NodeIndex>>) -> bool {
        forall|j: int, m: int|
            0 <= j < ranks.len() && 0 <= m < ranks[j].len() ==> self.node_layered(
                ranks,
                j,
                (#[trigger] ranks[j][m]).0 as int,
            )
    }

    /// Node `i` has a consumer among the nodes of `rank`.
    pub open spec fn has_consumer_in(self, i: int, rank: Seq<NodeIndex>) -> bool {
        exists|p: int, kk: int|
            0 <= p < self.node_outputs(i).len() && 0 <= kk < self.node_outputs(i)[p].len()
                && rank.contains((#[trigger] self.node_outputs(i)[p][kk]).node)
    }

    /// Each rank after the first is as early as possible: every node of
    /// rank `j` has some consumer in rank `j - 1`.
    pub open spec fn ranks_tight(self, ranks: Seq<Seq<NodeIndex>>) -> bool {
        forall|j: int, m: int|
            1 <= j < ranks.len() && 0 <= m < ranks[j].len() ==> self.has_consumer_in(
                (#[trigger] ranks[j][m]).0 as int,
                ranks[j - 1],
            )
    }

    /// Every consumer of an output port of node `i` is marked in `collected`.
    pub open spec fn consumers_collected(self, collected: Seq<bool>, i: int) -> bool {
        forall|p: int, k: int|
            0 <= p < self.node_outputs(i).len() && 0 <= k < self.node_outputs(i)[p].len()
                ==> collected[#[trigger] self.node_outputs(i)[p][k].node.0 as int]
    }

    /// Exec check for `consumers_collected`.
    fn check_consumers_collected(&self, n: NodeIndex, collected: &Vec<bool>) -> (r: bool)
        requires
            self.wf(),
            n.0 < self.node_count(),
            collected@.len() == self.node_count(),
        ensures
            r == self.consumers_collected(collected@, n.0 as int),
    {
        let outs = &self.nodes[n.0].outputs;
        let mut p: usize = 0;
        while p < outs.len()
            invariant
                self.wf(),
                n.0 < self.node_count(),
                collected@.len() == self.node_count(),
                outs@.len() == self.node_outputs(n.0 as int).len(),
                forall|q: int| 0 <= q < outs@.len() ==> #[trigger] outs@[q]@ == self.node_outputs(n.0 as int)[q],
                p <= outs@.len(),
                forall|q: int, k: int|
                    0 <= q < p && 0 <= k < self.node_outputs(n.0 as int)[q].len()
                        ==> collected@[#[trigger] self.node_outputs(n.0 as int)[q][k].node.0 as int],
            decreases outs@.len() - p,
        {
            let lst = &outs[p];
            let mut k: usize = 0;
            while k < lst.len()
                invariant
                    self.wf(),
                    n.0 < self.node_count(),
                    collected@.len() == self.node_count(),
                    p < self.node_outputs(n.0 as int).len(),
                    lst@ == self.node_outputs(n.0 as int)[p as int],
                    k <= lst@.len(),
                    forall|k2: int|
                        0 <= k2 < k
                            ==> collected@[#[trigger] self.node_outputs(n.0 as int)[p as int][k2].node.0 as int],
                decreases lst@.len() - k,
            {
                let c = lst[k];
                proof {
                    assert(self.node_wf(n.0 as int));
                }
                if !collected[c.node.0] {
                    return false;
                }
                k += 1;
            }
            p += 1;
        }
        true
    }

    /// Partitions the graph's nodes into its `Input` nodes, its `Output`
    /// nodes, and ranks of interior nodes ordered by distance from the
    /// outputs: a node joins a rank exactly when all of its consumers are
    /// already collected, starting from the outputs.  Every interior node
    /// lands in exactly one rank, and every consumer of a node in rank `j`
    /// is an `Output` node or sits in a rank strictly before `j`.
    pub fn ranks_from_end(&self) -> (r: (Vec<NodeIndex>, Vec<Vec<NodeIndex>>, Vec<NodeIndex>))
        requires
            self.wf(),
        ensures
            ascending(r.0@),
            ascending(r.2@),
            forall|m: int| 0 <= m < r.0@.len() ==> #[trigger] r.0@[m].0 < self.node_count()
                && self.node_data(r.0@[m].0 as int) is Input,
            forall|i: int|
                0 <= i < self.node_count() && self.node_data(i) is Input
                    ==> r.0@.contains(NodeIndex(i as usize)),
            forall|m: int| 0 <= m < r.2@.len() ==> #[trigger] r.2@[m].0 < self.node_count()
                && self.node_data(r.2@[m].0 as int) is Output,
            forall|i: int|
                0 <= i < self.node_count() && self.node_data(i) is Output
                    ==> r.2@.contains(NodeIndex(i as usize)),
            // Every rank is a non-empty set of interior nodes, ascending.
            forall|j: int| 0 <= j < r.1@.len() ==> (#[trigger] r.1@[j])@.len() > 0,
            forall|j: int| 0 <= j < r.1@.len() ==> ascending(#[trigger] r.1@[j]@),
            forall|j: int, m: int|
                0 <= j < r.1@.len() && 0 <= m < r.1@[j]@.len()
                    ==> self.is_interior(#[trigger] r.1@[j]@[m].0 as int),
            // The ranks are pairwise disjoint and cover all interior nodes.
            forall|j1: int, j2: int, i: int|
                0 <= j1 < j2 < r.1@.len() && #[trigger] r.1@[j1]@.contains(NodeIndex(i as usize))
                    ==> !(#[trigger] r.1@[j2]@.contains(NodeIndex(i as usize))),
            forall|i: int| self.is_interior(i) ==> in_ranks(r.1@.map_values(|v: Vec<NodeIndex>| v@), i),
            // Layering: consumers sit in strictly earlier ranks or are outputs.
            self.ranks_layered(r.1@.map_values(|v: Vec<NodeIndex>| v@)),
            // Minimality: each rank is forced by a consumer one rank earlier.
            self.ranks_tight(r.1@.map_values(|v: Vec<NodeIndex>| v@)),
    {
        let n = self.nodes.len();
        let mut inputs: Vec<NodeIndex> = Vec::new();
        let mut outputs: Vec<NodeIndex> = Vec::new();
        let mut remaining: Vec<NodeIndex> = Vec::new();
        let mut collected: Vec<bool> = Vec::new();

        let mut i: usize = 0;
        while i < n
            invariant
                self.wf(),
                n == self.node_count(),
                i <= n,
                collected@.len() == i,
                ascending(inputs@),
                ascending(outputs@),
                ascending(remaining@),
                forall|m: int| 0 <= m < inputs@.len() ==> #[trigger] inputs@[m].0 < i
                    && self.node_data(inputs@[m].0 as int) is Input,
                forall|m: int| 0 <= m < outputs@.len() ==> #[trigger] outputs@[m].0 < i
                    && self.node_data(outputs@[m].0 as int) is Output,
                forall|m: int| 0 <= m < remaining@.len() ==> self.is_interior(
                    #[trigger] remaining@[m].0 as int,
                ) && remaining@[m].0 < i,
                forall|t: int|
                    0 <= t < i && self.node_data(t) is Input ==> inputs@.contains(
                        NodeIndex(t as usize),
                    ),
                forall|t: int|
                    0 <= t < i && self.node_data(t) is Output ==> outputs@.contains(
                        NodeIndex(t as usize),
                    ),
                forall|t: int|
                    0 <= t < i && self.is_interior(t) ==> remaining@.contains(
                        NodeIndex(t as usize),
                    ),
                forall|t: int|
                    0 <= t < i ==> #[trigger] collected@[t] == (self.node_data(t) is Output),
            decreases n - i,
        {
            match &self.nodes[i].data {
                Node::Input => {
                    inputs.push(NodeIndex(i));
                    collected.push(false);
                }
                Node::Output => {
                    outputs.push(NodeIndex(i));
                    collected.push(true);
                }
                _ => {
                    remaining.push(NodeIndex(i));
                    collected.push(false);
                }
            }
            i += 1;
        }

        let mut ranks: Vec<Vec<NodeIndex>> = Vec::new();
        let ghost mut prev_collected: Seq<bool> = collected@;

        while remaining.len() > 0
            invariant
                self.wf(),
                n == self.node_count(),
                collected@.len() == n,
                ascending(remaining@),
                forall|m: int| 0 <= m < remaining@.len() ==> self.is_interior(
                    #[trigger] remaining@[m].0 as int,
                ),
                // collected status of each node kind
                forall|t: int|
                    0 <= t < n && self.node_data(t) is Output ==> #[trigger] collected@[t],
                forall|t: int|
                    0 <= t < n && self.node_data(t) is Input ==> !#[trigger] collected@[t],
                // an interior node is collected exactly when it sits in a rank,
                // and is remaining exactly when it is not collected
                forall|t: int|
                    self.is_interior(t) ==> (#[trigger] collected@[t] == in_ranks(
                        ranks@.map_values(|v: Vec<NodeIndex>| v@),
                        t,
                    )),
                forall|t: int|
                    self.is_interior(t) ==> (remaining@.contains(NodeIndex(t as usize))
                        == !#[trigger] collected@[t]),
                // ranks hold interior nodes, non-empty and ascending
                forall|j: int| 0 <= j < ranks@.len() ==> (#[trigger] ranks@[j])@.len() > 0,
                forall|j: int| 0 <= j < ranks@.len() ==> ascending(#[trigger] ranks@[j]@),
                forall|j: int, m: int|
                    0 <= j < ranks@.len() && 0 <= m < ranks@[j]@.len()
                        ==> self.is_interior(#[trigger] ranks@[j]@[m].0 as int),
                // pairwise disjointness of ranks
                forall|j1: int, j2: int, m1: int|
                    0 <= j1 < j2 < ranks@.len() && 0 <= m1 < ranks@[j1]@.len()
                        ==> !(#[trigger] ranks@[j2]@.contains(#[trigger] ranks@[j1]@[m1])),
                // layering
                self.ranks_layered(ranks@.map_values(|v: Vec<NodeIndex>| v@)),
                // minimality bookkeeping: what was collected before the
                // last pass, and that every remaining node failed it
                ranks@.len() > 0 ==> prev_collected.len() == n,
                ranks@.len() > 0 ==> forall|t: int|
                    0 <= t < n ==> #[trigger] prev_collected[t] == (self.node_data(t) is Output
                        || in_ranks(
                        ranks@.map_values(|v: Vec<NodeIndex>| v@).drop_last(),
                        t,
                    )),
                ranks@.len() > 0 ==> forall|m: int|
                    0 <= m < remaining@.len() ==> !self.consumers_collected(
                        prev_collected,
                        (#[trigger] remaining@[m]).0 as int,
                    ),
                self.ranks_tight(ranks@.map_values(|v: Vec<NodeIndex>| v@)),
            decreases remaining@.len(),
        {
            let ghost pre_collected = collected@;
            let ghost pre_remaining = remaining@;
            let ghost pre_ranks = ranks@;

            let mut next_rank: Vec<NodeIndex> = Vec::new();
            let mut new_remaining: Vec<NodeIndex> = Vec::new();

            let mut t: usize = 0;
            while t < remaining.len()
                invariant
                    self.wf(),
                    n == self.node_count(),
                    collected@ == pre_collected,
                    remaining@ == pre_remaining,
                    collected@.len() == n,
                    t <= remaining@.len(),
                    ascending(remaining@),
                    forall|m: int| 0 <= m < remaining@.len() ==> self.is_interior(
                        #[trigger] remaining@[m].0 as int,
                    ),
                    // next_rank and new_remaining split the scanned prefix
                    forall|m: int| 0 <= m < next_rank@.len() ==> pre_remaining.take(t as int).contains(
                        #[trigger] next_rank@[m],
                    ),
                    forall|m: int| 0 <= m < new_remaining@.len() ==> pre_remaining.take(t as int).contains(
                        #[trigger] new_remaining@[m],
                    ),
                    forall|m: int|
                        0 <= m < t ==> (self.consumers_collected(pre_collected, #[trigger] pre_remaining[m].0 as int)
                            ==> next_rank@.contains(pre_remaining[m]))
                            && (!self.consumers_collected(pre_collected, pre_remaining[m].0 as int)
                            ==> new_remaining@.contains(pre_remaining[m])),
                    forall|m: int| 0 <= m < next_rank@.len() ==> self.consumers_collected(
                        pre_collected,
                        #[trigger] next_rank@[m].0 as int,
                    ),
                    forall|m: int| 0 <= m < new_remaining@.len() ==> !self.consumers_collected(
                        pre_collected,
                        #[trigger] new_remaining@[m].0 as int,
                    ),
                    ascending(next_rank@),
                    ascending(new_remaining@),
                    next_rank@.len() + new_remaining@.len() == t,
                    forall|m: int|
                        0 <= m < next_rank@.len() ==> #[trigger] next_rank@[m].0
                            <= pre_remaining[t as int - 1].0,
                    forall|m: int|
                        0 <= m < new_remaining@.len() ==> #[trigger] new_remaining@[m].0
                            <= pre_remaining[t as int - 1].0,
                decreases remaining@.len() - t,
            {
                let node = remaining[t];
                if self.check_consumers_collected(node, &collected) {
                    next_rank.push(node);
                } else {
                    new_remaining.push(node);
                }
                proof {
                    assert(pre_remaining.take(t + 1) =~= pre_remaining.take(t as int).push(
                        pre_remaining[t as int],
                    ));
                    assert(forall|m: int|
                        0 <= m < t + 1 ==> #[trigger] pre_remaining.take(t + 1)[m] == pre_remaining[m]);
                }
                t += 1;
            }
            proof {
                assert(pre_remaining.take(remaining@.len() as int) =~= pre_remaining);
            }

            // Progress: the highest-index remaining node always qualifies,
            // because all of its consumers have strictly higher indices and
            // are therefore outputs or interior nodes already collected.
            proof {
                let last = pre_remaining[pre_remaining.len() - 1];
                assert(self.is_interior(last.0 as int));
                assert forall|p: int, k: int|
                    0 <= p < self.node_outputs(last.0 as int).len() && 0 <= k < self.node_outputs(
                        last.0 as int,
                    )[p].len() implies pre_collected[#[trigger] self.node_outputs(last.0 as int)[p][k].node.0 as int] by {
                    assert(self.node_wf(last.0 as int));
                    let c = self.node_outputs(last.0 as int)[p][k];
                    let ci = c.node.0 as int;
                    assert(last.0 < ci < n);
                    assert(self.node_wf(ci));
                    assert(c.index.0 < self.node_inputs(ci).len());
                    assert(!(self.node_data(ci) is Input));
                    if !(self.node_data(ci) is Output) {
                        assert(self.is_interior(ci));
                        if !pre_collected[ci] {
                            assert(pre_remaining.contains(NodeIndex(ci as usize)));
                            let m = choose|m: int|
                                0 <= m < pre_remaining.len() && pre_remaining[m] == NodeIndex(ci as usize);
                            assert(pre_remaining[m].0 <= last.0);
                            assert(false);
                        }
                    }
                }
                assert(next_rank@.contains(last));
                assert(next_rank@.len() > 0);
                assert(new_remaining@.len() < pre_remaining.len());
            }

            // Mark the rank's nodes as collected.
            let mut u: usize = 0;
            while u < next_rank.len()
                invariant
                    n == self.node_count(),
                    collected@.len() == n,
                    u <= next_rank@.len(),
                    forall|m: int| 0 <= m < next_rank@.len() ==> self.is_interior(
                        #[trigger] next_rank@[m].0 as int,
                    ),
                    ascending(next_rank@),
                    forall|t2: int|
                        0 <= t2 < n ==> #[trigger] collected@[t2] == (pre_collected[t2]
                            || next_rank@.take(u as int).contains(NodeIndex(t2 as usize))),
                decreases next_rank@.len() - u,
            {
                let node = next_rank[u];
                collected[node.0] = true;
                proof {
                    assert(next_rank@.take(u + 1).drop_last() =~= next_rank@.take(u as int));
                    assert(next_rank@.take(u + 1).last() == next_rank@[u as int]);
                    assert forall|t2: int| 0 <= t2 < n implies #[trigger] collected@[t2]
                        == (pre_collected[t2] || next_rank@.take(u + 1).contains(NodeIndex(t2 as usize))) by {
                        if t2 == node.0 as int {
                            assert(next_rank@.take(u + 1)[u as int] == node);
                            assert(next_rank@.take(u + 1).contains(NodeIndex(t2 as usize)));
                        } else {
                            assert(forall|m: int|
                                0 <= m < u + 1 ==> #[trigger] next_rank@.take(u + 1)[m] == next_rank@[m]);
                        }
                    }
                }
                u += 1;
            }
            proof {
                assert(next_rank@.take(next_rank@.len() as int) =~= next_rank@);
            }

            ranks.push(next_rank);
            remaining = new_remaining;

            proof {
                let ghost rseqs = ranks@.map_values(|v: Vec<NodeIndex>| v@);
                let ghost pre_rseqs = pre_ranks.map_values(|v: Vec<NodeIndex>| v@);
                assert(rseqs =~= pre_rseqs.push(ranks@[ranks@.len() - 1]@));
                let new_rank = rseqs[rseqs.len() - 1];
                assert forall|t2: int| self.is_interior(t2) implies (#[trigger] collected@[t2]
                    == in_ranks(rseqs, t2)) by {
                    if collected@[t2] {
                        if pre_collected[t2] {
                            assert(in_ranks(pre_rseqs, t2));
                            let j = choose|j: int|
                                0 <= j < pre_rseqs.len() && #[trigger] pre_rseqs[j].contains(NodeIndex(t2 as usize));
                            assert(rseqs[j].contains(NodeIndex(t2 as usize)));
                        } else {
                            assert(new_rank.contains(NodeIndex(t2 as usize)));
                            assert(rseqs[rseqs.len() - 1].contains(NodeIndex(t2 as usize)));
                        }
                    } else {
                        assert(!pre_collected[t2]);
                        if in_ranks(rseqs, t2) {
                            let j = choose|j: int|
                                0 <= j < rseqs.len() && #[trigger] rseqs[j].contains(NodeIndex(t2 as usize));
                            if j < rseqs.len() - 1 {
                                assert(pre_rseqs[j].contains(NodeIndex(t2 as usize)));
                                assert(in_ranks(pre_rseqs, t2));
                                assert(false);
                            } else {
                                assert(new_rank.contains(NodeIndex(t2 as usize)));
                                assert(false);
                            }
                        }
                    }
                }
                assert forall|t2: int| self.is_interior(t2) implies (remaining@.contains(
                    NodeIndex(t2 as usize),
                ) == !#[trigger] collected@[t2]) by {
                    let e = NodeIndex(t2 as usize);
                    if remaining@.contains(e) {
                        // not in next_rank: consumers not collected, so not collected now
                        assert(!self.consumers_collected(pre_collected, t2)) by {
                            let m = choose|m: int| 0 <= m < remaining@.len() && remaining@[m] == e;
                            assert(!self.consumers_collected(pre_collected, remaining@[m].0 as int));
                        }
                        assert(!pre_collected[t2]) by {
                            if pre_collected[t2] {
                                assert(in_ranks(pre_rseqs, t2));
                                assert(pre_remaining.contains(e) == !pre_collected[t2]);
                                let m = choose|m: int| 0 <= m < remaining@.len() && remaining@[m] == e;
                                assert(pre_remaining.take(pre_remaining.len() as int).contains(e));
                                assert(false);
                            }
                        }
                        if next_rank@.contains(e) {
                            let m = choose|m: int| 0 <= m < next_rank@.len() && next_rank@[m] == e;
                            assert(self.consumers_collected(pre_collected, next_rank@[m].0 as int));
                            assert(false);
                        }
                        assert(!collected@[t2]);
                    } else {
                        if !collected@[t2] {
                            assert(!pre_collected[t2]);
                            assert(!next_rank@.contains(e));
                            assert(pre_remaining.contains(e));
                            let m = choose|m: int|
                                0 <= m < pre_remaining.len() && pre_remaining[m] == e;
                            assert(self.consumers_collected(pre_collected, pre_remaining[m].0 as int)
                                ==> next_rank@.contains(pre_remaining[m]));
                            assert(!self.consumers_collected(pre_collected, t2));
                            assert(new_remaining@.contains(e));
                            assert(false);
                        }
                    }
                }
                // layering: old ranks carry over unchanged; the new rank's
                // consumers were all collected before this pass, hence are
                // outputs or members of some existing (strictly earlier) rank
                assert forall|j: int, m: int| 0 <= j < rseqs.len() && 0 <= m < rseqs[j].len()
                    implies self.node_layered(rseqs, j, (rseqs[j][m]).0 as int) by {
                    let t2 = rseqs[j][m].0 as int;
                    if j < rseqs.len() - 1 {
                        assert(pre_rseqs[j] == rseqs[j]);
                        assert(self.node_layered(pre_rseqs, j, t2));
                        assert forall|p: int, k: int|
                            0 <= p < self.node_outputs(t2).len() && 0 <= k < self.node_outputs(
                                t2,
                            )[p].len() implies self.consumer_in_earlier_rank(
                            rseqs,
                            j,
                            (#[trigger] self.node_outputs(t2)[p][k]).node.0 as int,
                        ) by {
                            let c = self.node_outputs(t2)[p][k].node.0 as int;
                            assert(self.consumer_in_earlier_rank(pre_rseqs, j, c));
                            if !(self.node_data(c) is Output) {
                                let j2 = choose|j2: int|
                                    0 <= j2 < j && #[trigger] pre_rseqs[j2].contains(NodeIndex(c as usize));
                                assert(rseqs[j2].contains(NodeIndex(c as usize)));
                            }
                        }
                    } else {
                        assert(next_rank@.contains(rseqs[j][m]));
                        assert(self.consumers_collected(pre_collected, t2)) by {
                            let mr = choose|mr: int|
                                0 <= mr < next_rank@.len() && next_rank@[mr] == rseqs[j][m];
                            assert(self.consumers_collected(pre_collected, next_rank@[mr].0 as int));
                        }
                        assert(self.node_wf(t2));
                        assert forall|p: int, k: int|
                            0 <= p < self.node_outputs(t2).len() && 0 <= k < self.node_outputs(
                                t2,
                            )[p].len() implies self.consumer_in_earlier_rank(
                            rseqs,
                            j,
                            (#[trigger] self.node_outputs(t2)[p][k]).node.0 as int,
                        ) by {
                            let c = self.node_outputs(t2)[p][k].node.0 as int;
                            assert(pre_collected[c]);
                            assert(!(self.node_data(c) is Input));
                            if !(self.node_data(c) is Output) {
                                assert(self.is_interior(c));
                                assert(in_ranks(pre_rseqs, c));
                                let j2 = choose|j2: int|
                                    0 <= j2 < pre_rseqs.len() && #[trigger] pre_rseqs[j2].contains(
                                        NodeIndex(c as usize),
                                    );
                                assert(rseqs[j2].contains(NodeIndex(c as usize)));
                                assert(j2 < j);
                            }
                        }
                    }
                }
                // minimality: a node of the new rank failed the previous
                // pass, so one of its consumers joined only in the last rank
                assert forall|j: int, m: int|
                    1 <= j < rseqs.len() && 0 <= m < rseqs[j].len() implies self.has_consumer_in(
                    (#[trigger] rseqs[j][m]).0 as int,
                    rseqs[j - 1],
                ) by {
                    if j < rseqs.len() - 1 {
                        assert(pre_rseqs[j] == rseqs[j] && pre_rseqs[j - 1] == rseqs[j - 1]);
                        assert(self.has_consumer_in(pre_rseqs[j][m].0 as int, pre_rseqs[j - 1]));
                    } else {
                        // the new rank: its node was in the remainder after
                        // the previous pass, hence some consumer was not
                        // collected then; by the layering just proved that
                        // consumer sits exactly one rank earlier
                        let t2 = rseqs[j][m].0 as int;
                        assert(next_rank@.contains(rseqs[j][m]));
                        assert(pre_remaining.contains(rseqs[j][m])) by {
                            let mr = choose|mr: int|
                                0 <= mr < next_rank@.len() && next_rank@[mr] == rseqs[j][m];
                            assert(pre_remaining.take(pre_remaining.len() as int).contains(
                                next_rank@[mr],
                            ));
                        }
                        let mr2 = choose|mr2: int|
                            0 <= mr2 < pre_remaining.len() && pre_remaining[mr2] == rseqs[j][m];
                        assert(!self.consumers_collected(prev_collected, t2)) by {
                            assert(!self.consumers_collected(
                                prev_collected,
                                pre_remaining[mr2].0 as int,
                            ));
                        }
                        let (p, kk) = choose|p: int, kk: int|
                            0 <= p < self.node_outputs(t2).len() && 0 <= kk < self.node_outputs(
                                t2,
                            )[p].len() && !prev_collected[#[trigger] self.node_outputs(
                                t2,
                            )[p][kk].node.0 as int];
                        let c = self.node_outputs(t2)[p][kk].node;
                        assert(self.node_wf(t2));
                        assert(!(self.node_data(c.0 as int) is Output));
                        assert(!in_ranks(pre_rseqs.drop_last(), c.0 as int));
                        // layering of the new rank places c before rank j
                        assert(self.node_layered(rseqs, j, t2)) by {
                            assert(rseqs[j][m].0 as int == t2);
                        }
                        assert(self.consumer_in_earlier_rank(rseqs, j, c.0 as int)) by {
                            assert(self.node_outputs(t2)[p][kk].node.0 as int == c.0 as int);
                        }
                        let j2 = choose|j2: int|
                            0 <= j2 < j && #[trigger] rseqs[j2].contains(NodeIndex(c.0 as int as usize));
                        assert(j2 == j - 1) by {
                            if j2 < j - 1 {
                                assert(pre_rseqs.drop_last()[j2] == rseqs[j2]);
                                assert(in_ranks(pre_rseqs.drop_last(), c.0 as int));
                                assert(false);
                            }
                        }
                        assert(NodeIndex(c.0 as int as usize) == c);
                        assert(rseqs[j - 1].contains(c));
                        assert(self.has_consumer_in(t2, rseqs[j - 1]));
                    }
                }
                assert(self.ranks_tight(rseqs));
                // record this pass's starting flags for the next round
                assert(pre_rseqs =~= rseqs.drop_last());
                prev_collected = pre_collected;
                assert forall|t2: int| 0 <= t2 < n implies #[trigger] prev_collected[t2]
                    == (self.node_data(t2) is Output || in_ranks(rseqs.drop_last(), t2)) by {
                    if self.is_interior(t2) {
                        assert(pre_collected[t2] == in_ranks(pre_rseqs, t2));
                        assert(!(self.node_data(t2) is Output));
                    } else if self.node_data(t2) is Output {
                        assert(pre_collected[t2]);
                    } else {
                        assert(!pre_collected[t2]);
                        if in_ranks(rseqs.drop_last(), t2) {
                            let j3 = choose|j3: int|
                                0 <= j3 < rseqs.drop_last().len() && #[trigger] rseqs.drop_last()[j3].contains(
                                    NodeIndex(t2 as usize),
                                );
                            let m3 = choose|m3: int|
                                0 <= m3 < rseqs[j3].len() && rseqs[j3][m3] == NodeIndex(t2 as usize);
                            assert(self.is_interior(rseqs[j3][m3].0 as int));
                            assert(false);
                        }
                    }
                }
                assert forall|m: int| 0 <= m < remaining@.len() implies !self.consumers_collected(
                    prev_collected,
                    (#[trigger] remaining@[m]).0 as int,
                ) by {
                    assert(!self.consumers_collected(pre_collected, new_remaining@[m].0 as int));
                }
                // disjointness: the new rank's nodes were not yet collected,
                // while every node of an older rank already was
                assert forall|j1: int, j2: int, m1: int|
                    0 <= j1 < j2 < ranks@.len() && 0 <= m1 < ranks@[j1]@.len()
                    implies !(#[trigger] ranks@[j2]@.contains(#[trigger] ranks@[j1]@[m1])) by {
                    if j2 == ranks@.len() - 1 {
                        let e = ranks@[j1]@[m1];
                        assert(pre_rseqs[j1] == rseqs[j1]);
                        assert(pre_rseqs[j1][m1] == e);
                        assert(pre_rseqs[j1].contains(NodeIndex(e.0)));
                        assert(self.is_interior(e.0 as int));
                        assert(NodeIndex(e.0 as int as usize) == e);
                        assert(in_ranks(pre_rseqs, e.0 as int));
                        assert(pre_collected[e.0 as int]);
                        if ranks@[j2]@.contains(e) {
                            let m2 = choose|m2: int|
                                0 <= m2 < next_rank@.len() && next_rank@[m2] == e;
                            assert(pre_remaining.contains(e));
                            assert(!pre_collected[e.0 as int]);
                            assert(false);
                        }
                    } else {
                        assert(pre_rseqs[j1] == rseqs[j1]);
                        assert(pre_rseqs[j2] == rseqs[j2]);
                        assert(pre_ranks[j2]@.contains(pre_ranks[j1]@[m1]) == ranks@[j2]@.contains(
                            ranks@[j1]@[m1],
                        ));
                    }
                }
            }
        }

        proof {
            assert forall|i2: int| self.is_interior(i2) implies in_ranks(
                ranks@.map_values(|v: Vec<NodeIndex>| v@),
                i2,
            ) by {
                assert(!remaining@.contains(NodeIndex(i2 as usize)));
                assert(collected@[i2]);
            }
            assert forall|j1: int, j2: int, i2: int|
                0 <= j1 < j2 < ranks@.len() && #[trigger] ranks@[j1]@.contains(NodeIndex(i2 as usize))
                implies !(#[trigger] ranks@[j2]@.contains(NodeIndex(i2 as usize))) by {
                let m1 = choose|m1: int|
                    0 <= m1 < ranks@[j1]@.len() && ranks@[j1]@[m1] == NodeIndex(i2 as usize);
                assert(!(ranks@[j2]@.contains(ranks@[j1]@[m1])));
            }
        }

        (inputs, ranks, outputs)
    }
}

impl<E> HyperGraph<E> {
    /// Wires entering the graph from the boundary: the total output port
    /// count of the `Input` nodes among the first `n` nodes.
    pub open spec fn input_wires_upto(self, n: int) -> int
        decreases n,
    {
        if n <= 0 {
            0
        } else {
            self.input_wires_upto(n - 1) + if self.node_data(n - 1) is Input {
                self.node_outputs(n - 1).len() as int
            } else {
                0
            }
        }
    }

    /// Wires entering the graph from the boundary.
    pub open spec fn input_wires(self) -> int {
        self.input_wires_upto(self.node_count() as int)
    }

    /// The model invariants the monoidal synthesis relies on: every
    /// interior node has exactly one output port, boundary wire counts fit
    /// the machine, and each thunk's body provides one boundary input wire
    /// per declared argument plus one per captured port.
    pub open spec fn synth_wf(self) -> bool
        decreases self,
    {
        &&& forall|i: int| self.is_interior(i) ==> self.node_outputs(i).len() == 1
        &&& self.input_wires() <= usize::MAX
        &&& forall|i: int|
            0 <= i < self.node_count()
                ==> match #[trigger] self.node_data(i) {
                    Node::Thunk { args, body } => body.synth_wf() && args
                        + self.node_inputs(i).len() == body.input_wires(),
                    _ => true,
                }
    }

    /// The graph has something to lower to a diagram: at least one interior
    /// node at every level, thunk bodies included.
    pub open spec fn lowerable(self) -> bool
        decreases self,
    {
        &&& exists|i: int| self.is_interior(i)
        &&& forall|i: int|
            0 <= i < self.node_count()
                ==> match #[trigger] self.node_data(i) {
                    Node::Thunk { args, body } => body.lowerable(),
                    _ => true,
                }
    }

    /// Number of nodes, as a machine integer.
    pub fn len(&self) -> (r: usize)
        ensures
            r == self.node_count(),
    {
        self.nodes.len()
    }

    /// Whether any interior node exists.
    pub fn has_interior(&self) -> (r: bool)
        ensures
            r == exists|i: int| self.is_interior(i),
    {
        let mut i: usize = 0;
        while i < self.nodes.len()
            invariant
                i <= self.node_count(),
                forall|t: int| 0 <= t < i ==> !self.is_interior(t),
            decreases self.node_count() - i,
        {
            match &self.nodes[i].data {
                Node::Input => {}
                Node::Output => {}
                _ => {
                    proof {
                        assert(self.is_interior(i as int));
                    }
                    return true;
                }
            }
            i += 1;
        }
        false
    }

    /// Counts the wires entering the graph from the boundary.
    pub fn count_input_wires(&self) -> (r: usize)
        requires
            self.input_wires() <= usize::MAX,
        ensures
            r == self.input_wires(),
    {
        let mut acc: usize = 0;
        let mut i: usize = 0;
        while i < self.nodes.len()
            invariant
                i <= self.node_count(),
                acc == self.input_wires_upto(i as int),
                self.input_wires() <= usize::MAX,
                self.input_wires_upto(i as int) + (self.input_wires()
                    - self.input_wires_upto(self.node_count() as int)) <= usize::MAX,
            decreases self.node_count() - i,
        {
            proof {
                lemma_input_wires_mono(*self, i + 1, self.node_count() as int);
            }
            match &self.nodes[i].data {
                Node::Input => {
                    acc = acc + self.nodes[i].outputs.len();
                }
                _ => {}
            }
            i += 1;
        }
        acc
    }
}

/// Observational equality of node data: equal weights and boundary kinds,
/// and thunk bodies equivalent level by level.
pub open spec fn data_equiv<E>(a: Node<E>, b: Node<E>) -> bool
    decreases a,
{
    match a {
        Node::Weight(w) => b matches Node::Weight(w2) && w == w2,
        Node::Input => b is Input,
        Node::Output => b is Output,
        Node::Thunk { args, body } => b matches Node::Thunk { args: args2, body: body2 }
            && args == args2 && graph_equiv(body, body2),
    }
}

/// Observational equality of graphs: the same nodes with equivalent data
/// and identical wiring.
pub open spec fn graph_equiv<E>(a: HyperGraph<E>, b: HyperGraph<E>) -> bool
    decreases a,
{
    &&& a.node_count() == b.node_count()
    &&& forall|i: int|
        0 <= i < a.node_count() ==> data_equiv(#[trigger] a.node_data(i), b.node_data(i))
    &&& forall|i: int| 0 <= i < a.node_count() ==> a.node_inputs(i) == b.node_inputs(i)
    &&& forall|i: int| 0 <= i < a.node_count() ==> a.node_outputs(i) =~~= b.node_outputs(i)
}

/// Equivalent graphs satisfy the same structural invariants.
pub proof fn lemma_equiv_wf<E>(a: HyperGraph<E>, b: HyperGraph<E>)
    requires
        a.wf(),
        graph_equiv(a, b),
    ensures
        b.wf(),
    decreases a,
{
    assert forall|i: int| 0 <= i < b.node_count() implies b.node_wf(i) by {
        assert(a.node_wf(i));
        assert(data_equiv(a.node_data(i), b.node_data(i)));
    }
    assert forall|i: int| 0 <= i < b.node_count() implies match #[trigger] b.node_data(i) {
        Node::Thunk { args, body } => body.wf(),
        _ => true,
    } by {
        assert(data_equiv(a.node_data(i), b.node_data(i)));
        match a.node_data(i) {
            Node::Thunk { args, body } => {
                let b_body = b.node_data(i)->body;
                lemma_body_decreases(a, i);
                lemma_equiv_wf(body, b_body);
            }
            _ => {}
        }
    }
}

impl<E: Copy> Node<E> {
    /// A deep copy of node data, including a thunk's owned body graph.
    pub fn duplicate(&self) -> (r: Node<E>)
        ensures
            data_equiv(*self, r),
        decreases *self,
    {
        match self {
            Node::Weight(w) => Node::Weight(*w),
            Node::Input => Node::Input,
            Node::Output => Node::Output,
            Node::Thunk { args, body } => Node::Thunk { args: *args, body: body.duplicate() },
        }
    }
}

impl<E: Copy> HyperGraph<E> {
    /// A deep copy of the graph, observationally equal to the original.
    pub fn duplicate(&self) -> (r: HyperGraph<E>)
        ensures
            graph_equiv(*self, r),
        decreases *self,
    {
        let mut nodes: Vec<NodeInfo<E>> = Vec::new();
        let mut i: usize = 0;
        while i < self.nodes.len()
            invariant
                i <= self.node_count(),
                nodes@.len() == i,
                forall|q: int|
                    0 <= q < i ==> data_equiv(
                        self.node_data(q),
                        #[trigger] nodes@[q].data,
                    ),
                forall|q: int| 0 <= q < i ==> self.node_inputs(q) == #[trigger] nodes@[q].inputs@,
                forall|q: int|
                    0 <= q < i ==> self.node_outputs(q) =~~= Seq::new(
                        (#[trigger] nodes@[q]).outputs@.len(),
                        |p: int| nodes@[q].outputs@[p]@,
                    ),
            decreases self.node_count() - i,
        {
            let src = &self.nodes[i];
            let data = src.data.duplicate();
            let mut inputs: Vec<Port> = Vec::new();
            let mut k: usize = 0;
            while k < src.inputs.len()
                invariant
                    k <= src.inputs@.len(),
                    inputs@ == src.inputs@.take(k as int),
                decreases src.inputs@.len() - k,
            {
                inputs.push(src.inputs[k]);
                proof {
                    assert(src.inputs@.take(k + 1) =~= src.inputs@.take(k as int).push(
                        src.inputs@[k as int],
                    ));
                }
                k += 1;
            }
            proof {
                assert(src.inputs@.take(src.inputs@.len() as int) =~= src.inputs@);
            }
            let mut outputs: Vec<Vec<Port>> = Vec::new();
            let mut p: usize = 0;
            while p < src.outputs.len()
                invariant
                    p <= src.outputs@.len(),
                    outputs@.len() == p,
                    forall|q: int| 0 <= q < p ==> #[trigger] outputs@[q]@ == src.outputs@[q]@,
                decreases src.outputs@.len() - p,
            {
                let lst = &src.outputs[p];
                let mut one: Vec<Port> = Vec::new();
                let mut k2: usize = 0;
                while k2 < lst.len()
                    invariant
                        k2 <= lst@.len(),
                        one@ == lst@.take(k2 as int),
                    decreases lst@.len() - k2,
                {
                    one.push(lst[k2]);
                    proof {
                        assert(lst@.take(k2 + 1) =~= lst@.take(k2 as int).push(lst@[k2 as int]));
                    }
                    k2 += 1;
                }
                proof {
                    assert(lst@.take(lst@.len() as int) =~= lst@);
                }
                outputs.push(one);
                p += 1;
            }
            nodes.push(NodeInfo { data, inputs, outputs });
            i += 1;
        }
        let r = HyperGraph { nodes };
        proof {
            assert(graph_equiv(*self, r)) by {
                assert forall|q: int| 0 <= q < self.node_count() implies self.node_outputs(q)
                    =~~= r.node_outputs(q) by {
                    assert(r.node_outputs(q) == Seq::new(
                        r.nodes@[q].outputs@.len(),
                        |p2: int| r.nodes@[q].outputs@[p2]@,
                    ));
                }
            }
        }
        r
    }
}

/// A thunk's body graph sits structurally inside its owner, so recursive
/// passes over nested bodies terminate.
pub proof fn lemma_body_decreases<E>(g: HyperGraph<E>, i: int)
    requires
        0 <= i < g.node_count(),
        g.node_data(i) matches Node::Thunk { args, body },
    ensures
        decreases_to!(g => g.node_data(i)->body),
{
    assert(decreases_to!(g => g.nodes));
    assert(decreases_to!(g.nodes => g.nodes@[i]));
    assert(decreases_to!(g.nodes@[i] => g.nodes@[i].data));
    assert(decreases_to!(g.nodes@[i].data => g.nodes@[i].data->body));
}

/// `input_wires_upto` is monotone in its bound.
proof fn lemma_input_wires_mono<E>(g: HyperGraph<E>, a: int, b: int)
    requires
        0 <= a <= b,
    ensures
        g.input_wires_upto(a) <= g.input_wires_upto(b),
    decreases b,
{
    if a < b {
        lemma_input_wires_mono(g, a, b - 1);
    }
}

/// Summing the output ports of an ascending, complete list of the `Input`
/// nodes gives the graph's boundary wire count.
pub open spec fn sum_outs_of_list<E>(g: HyperGraph<E>, lst: Seq<NodeIndex>) -> int
    decreases lst.len(),
{
    if lst.len() == 0 {
        0
    } else {
        sum_outs_of_list(g, lst.drop_last()) + g.node_outputs(lst.last().0 as int).len()
    }
}

pub proof fn lemma_input_list_sum<E>(g: HyperGraph<E>, lst: Seq<NodeIndex>, n: int)
    requires
        0 <= n <= g.node_count(),
        g.node_count() <= usize::MAX,
        ascending(lst),
        forall|m: int| 0 <= m < lst.len() ==> (#[trigger] lst[m]).0 < n
            && g.node_data(lst[m].0 as int) is Input,
        forall|i: int|
            0 <= i < n && g.node_data(i) is Input ==> lst.contains(NodeIndex(i as usize)),
    ensures
        sum_outs_of_list(g, lst) == g.input_wires_upto(n),
    decreases n,
{
    if n == 0 {
        if lst.len() > 0 {
            assert(lst[0].0 < n);
        }
        assert(lst.len() == 0);
    } else if g.node_data(n - 1) is Input {
        // the list must end with node n - 1
        assert(lst.contains(NodeIndex((n - 1) as usize)));
        let m = choose|m: int| 0 <= m < lst.len() && lst[m] == NodeIndex((n - 1) as usize);
        assert(lst[m].0 == n - 1);
        assert(m == lst.len() - 1) by {
            if m < lst.len() - 1 {
                assert(lst[m].0 < lst[lst.len() - 1].0);
                assert(lst[lst.len() - 1].0 < n);
                assert(false);
            }
        }
        assert(lst[lst.len() - 1].0 == n - 1);
        let rest = lst.drop_last();
        assert(forall|q: int| 0 <= q < rest.len() ==> rest[q] == lst[q]);
        assert forall|i: int| 0 <= i < n - 1 && g.node_data(i) is Input
            implies rest.contains(NodeIndex(i as usize)) by {
            assert(lst.contains(NodeIndex(i as usize)));
            let q = choose|q: int| 0 <= q < lst.len() && lst[q] == NodeIndex(i as usize);
            assert(q < lst.len() - 1) by {
                assert(lst[lst.len() - 1].0 == n - 1);
            }
            assert(rest[q] == NodeIndex(i as usize));
        }
        assert forall|q: int| 0 <= q < rest.len() implies (#[trigger] rest[q]).0 < n - 1 by {
            assert(rest[q].0 < lst[lst.len() - 1].0);
        }
        lemma_input_list_sum(g, rest, n - 1);
        assert(lst.last().0 == n - 1);
    } else {
        assert forall|m: int| 0 <= m < lst.len() implies (#[trigger] lst[m]).0 < n - 1 by {
            assert(lst[m].0 != n - 1);
        }
        lemma_input_list_sum(g, lst, n - 1);
    }
}

impl<E> Default for HyperGraph<E> {
    /// A default graph: exactly one `Input` and one `Output` node, each with
    /// zero ports — the degenerate base case for recursive algorithms.
    fn default() -> (g: Self)
        ensures
            g.wf(),
            g.node_count() == 2,
            g.node_data(0) is Input,
            g.node_data(1) is Output,
            g.node_inputs(0).len() == 0,
            g.node_outputs(0).len() == 0,
            g.node_inputs(1).len() == 0,
            g.node_outputs(1).len() == 0,
    {
        let mut g = HyperGraph::<E>::new();
        let _ = g.add_node(Node::Input, Vec::new(), 0);
        let _ = g.add_node(Node::Output, Vec::new(), 0);
        g
    }
}


/// Copies a consumer list.
fn clone_ports(v: &Vec<Port>) -> (r: Vec<Port>)
    ensures
        r@ == v@,
{
    let mut r: Vec<Port> = Vec::new();
    let mut i: usize = 0;
    while i < v.len()
        invariant
            i <= v@.len(),
            r@ == v@.take(i as int),
        decreases v@.len() - i,
    {
        r.push(v[i]);
        proof {
            assert(v@.take(i + 1) =~= v@.take(i as int).push(v@[i as int]));
        }
        i += 1;
    }
    proof {
        assert(v@.take(v@.len() as int) =~= v@);
    }
    r
}

/// `add_node_error` reports the error matching position `j`, the first
/// invalid entry of `inputs`.
proof fn lemma_add_node_error<E>(g: HyperGraph<E>, inputs: Seq<Port>, j: int)
    requires
        0 <= j < inputs.len(),
        !g.valid_out_port(inputs[j]),
        forall|k: int| 0 <= k < j ==> g.valid_out_port(#[trigger] inputs[k]),
    ensures
        !g.all_inputs_valid(inputs),
        g.add_node_error(inputs) == if inputs[j].node.0 >= g.node_count() {
            HyperGraphError::UnknownNode(inputs[j].node)
        } else {
            HyperGraphError::UnknownPort(inputs[j])
        },
    decreases j,
{
    if j > 0 {
        assert(forall|k: int| 0 <= k < j - 1 ==> inputs.drop_first()[k] == inputs[k + 1]);
        lemma_add_node_error(g, inputs.drop_first(), j - 1);
    }
}

/// A graph extended by `add_node` under valid inputs is well formed again.
proof fn lemma_add_node_wf<E>(
    g: HyperGraph<E>,
    post: HyperGraph<E>,
    data: Node<E>,
    inputs: Seq<Port>,
    output_ports: int,
)
    requires
        g.wf(),
        g.all_inputs_valid(inputs),
        inputs.len() <= usize::MAX,
        g.node_count() <= usize::MAX,
        data is Input ==> inputs.len() == 0,
        data is Output ==> output_ports == 0,
        data matches Node::Thunk { args, body } ==> body.wf() && args <= inputs.len(),
        g.add_node_ok(post, data, inputs, output_ports),
    ensures
        post.wf(),
{
    let n = g.node_count() as int;
    assert forall|i: int| 0 <= i < post.node_count() implies post.node_wf(i) by {
        if i < n {
            assert(g.node_wf(i));
            lemma_node_wf_extended(g, post, data, inputs, output_ports, i);
        } else {
            // The new node itself.
            assert forall|k: int| 0 <= k < post.node_inputs(i).len() implies {
                let src = #[trigger] post.node_inputs(i)[k];
                &&& src.node.0 < i
                &&& post.valid_out_port(src)
                &&& post.node_outputs(src.node.0 as int)[src.index.0 as int].contains(
                    Port { node: NodeIndex(i as usize), index: PortIndex(k as usize) },
                )
            } by {
                let src = post.node_inputs(i)[k];
                assert(g.valid_out_port(inputs[k]));
                lemma_consumers_added(inputs, src, n as usize);
                assert(consumers_added(inputs, src, n as usize).contains(
                    Port { node: NodeIndex(n as usize), index: PortIndex(k as usize) },
                ));
                let added = consumers_added(inputs, src, n as usize);
                let m = choose|m: int| 0 <= m < added.len() && added[m] == Port {
                    node: NodeIndex(n as usize),
                    index: PortIndex(k as usize),
                };
                let full = post.node_outputs(src.node.0 as int)[src.index.0 as int];
                assert(full == g.node_outputs(src.node.0 as int)[src.index.0 as int] + added);
                assert(full[g.node_outputs(src.node.0 as int)[src.index.0 as int].len() + m] == added[m]);
            }
        }
    }
    assert forall|i: int| 0 <= i < post.node_count() implies match #[trigger] post.node_data(i) {
        Node::Thunk { args, body } => body.wf(),
        _ => true,
    } by {
        if i < n {
            assert(post.node_data(i) == g.node_data(i));
            assert(g.wf());
        }
    }
}

/// Each pre-existing node keeps its local well-formedness when `add_node`
/// appends the new node's consumer entries.
proof fn lemma_node_wf_extended<E>(
    g: HyperGraph<E>,
    post: HyperGraph<E>,
    data: Node<E>,
    inputs: Seq<Port>,
    output_ports: int,
    i: int,
)
    requires
        g.wf(),
        g.all_inputs_valid(inputs),
        inputs.len() <= usize::MAX,
        g.node_count() <= usize::MAX,
        g.add_node_ok(post, data, inputs, output_ports),
        0 <= i < g.node_count(),
    ensures
        post.node_wf(i),
{
    let n = g.node_count() as int;
    assert(g.node_wf(i));
    // Sources of node i are untouched; containment survives the append.
    assert forall|k: int| 0 <= k < post.node_inputs(i).len() implies {
        let src = #[trigger] post.node_inputs(i)[k];
        &&& src.node.0 < i
        &&& post.valid_out_port(src)
        &&& post.node_outputs(src.node.0 as int)[src.index.0 as int].contains(
            Port { node: NodeIndex(i as usize), index: PortIndex(k as usize) },
        )
    } by {
        let src = post.node_inputs(i)[k];
        assert(g.node_inputs(i)[k] == src);
        let e = Port { node: NodeIndex(i as usize), index: PortIndex(k as usize) };
        let old_list = g.node_outputs(src.node.0 as int)[src.index.0 as int];
        assert(old_list.contains(e));
        let m = choose|m: int| 0 <= m < old_list.len() && old_list[m] == e;
        let full = post.node_outputs(src.node.0 as int)[src.index.0 as int];
        assert(full[m] == e);
    }
    // Consumers: the old entries still agree; the appended entries point at
    // the new node, whose input list is exactly `inputs`.
    assert forall|p: int, j: int|
        0 <= p < post.node_outputs(i).len() && 0 <= j < post.node_outputs(i)[p].len() implies {
        let c = #[trigger] post.node_outputs(i)[p][j];
        &&& i < c.node.0 < post.node_count()
        &&& c.index.0 < post.node_inputs(c.node.0 as int).len()
        &&& post.node_inputs(c.node.0 as int)[c.index.0 as int] == Port {
            node: NodeIndex(i as usize),
            index: PortIndex(p as usize),
        }
    } by {
        let src = Port { node: NodeIndex(i as usize), index: PortIndex(p as usize) };
        lemma_consumers_added(inputs, src, n as usize);
        let added = consumers_added(inputs, src, n as usize);
        let old_list = g.node_outputs(i)[p];
        assert(post.node_outputs(i)[p] == old_list + added);
        let c = post.node_outputs(i)[p][j];
        if j < old_list.len() {
            assert(c == old_list[j]);
            assert(g.node_wf(i));
            assert(post.node_inputs(c.node.0 as int) == g.node_inputs(c.node.0 as int));
        } else {
            assert(c == added[j - old_list.len()]);
            assert(c.node.0 == n);
            assert(post.node_inputs(n) == inputs);
            assert(inputs[c.index.0 as int] == src);
        }
    }
    // Distinctness: old entries point below n, appended ones at n with
    // strictly increasing input positions.
    assert forall|p: int, j1: int, j2: int|
        0 <= p < post.node_outputs(i).len() && 0 <= j1 < j2 < post.node_outputs(i)[p].len()
        implies #[trigger] post.node_outputs(i)[p][j1] != #[trigger] post.node_outputs(i)[p][j2] by {
        let src = Port { node: NodeIndex(i as usize), index: PortIndex(p as usize) };
        lemma_consumers_added(inputs, src, n as usize);
        let added = consumers_added(inputs, src, n as usize);
        let old_list = g.node_outputs(i)[p];
        assert(post.node_outputs(i)[p] == old_list + added);
        let c1 = post.node_outputs(i)[p][j1];
        let c2 = post.node_outputs(i)[p][j2];
        assert(g.node_wf(i));
        if j1 < old_list.len() && j2 < old_list.len() {
            assert(c1 == old_list[j1] && c2 == old_list[j2]);
        } else if j1 < old_list.len() {
            assert(c1 == old_list[j1]);
            assert(c2 == added[j2 - old_list.len()]);
            assert(c1.node.0 < g.node_count());
            assert(c2.node.0 == n);
        } else {
            assert(c1 == added[j1 - old_list.len()]);
            assert(c2 == added[j2 - old_list.len()]);
            assert(c1.index.0 < c2.index.0);
        }
    }
}

/// The consumer entries that wiring `inputs` into a node with index
/// `new_node` appends to the consumer list of the source port `src`:
/// one entry `(new_node, j)` for every position `j` with `inputs[j] == src`,
/// in increasing order of `j`.
pub open spec fn consumers_added(inputs: Seq<Port>, src: Port, new_node: usize) -> Seq<Port>
    decreases inputs.len(),
{
    if inputs.len() == 0 {
        Seq::empty()
    } else {
        let rest = consumers_added(inputs.drop_last(), src, new_node);
        if inputs.last() == src {
            rest.push(Port { node: NodeIndex(new_node), index: PortIndex((inputs.len() - 1) as usize) })
        } else {
            rest
        }
    }
}

proof fn lemma_consumers_added(inputs: Seq<Port>, src: Port, new_node: usize)
    requires
        inputs.len() <= usize::MAX,
    ensures
        forall|m: int|
            0 <= m < consumers_added(inputs, src, new_node).len() ==> {
                let c = #[trigger] consumers_added(inputs, src, new_node)[m];
                &&& c.node.0 == new_node
                &&& c.index.0 < inputs.len()
                &&& inputs[c.index.0 as int] == src
            },
        forall|m1: int, m2: int|
            0 <= m1 < m2 < consumers_added(inputs, src, new_node).len()
                ==> #[trigger] consumers_added(inputs, src, new_node)[m1].index.0
                    < #[trigger] consumers_added(inputs, src, new_node)[m2].index.0,
        forall|j: int|
            0 <= j < inputs.len() && inputs[j] == src
                ==> consumers_added(inputs, src, new_node).contains(
                    Port { node: NodeIndex(new_node), index: PortIndex(j as usize) },
                ),
    decreases inputs.len(),
{
    if inputs.len() > 0 {
        lemma_consumers_added(inputs.drop_last(), src, new_node);
        let rest = consumers_added(inputs.drop_last(), src, new_node);
        let whole = consumers_added(inputs, src, new_node);
        assert(forall|j: int| 0 <= j < inputs.len() - 1 ==> inputs.drop_last()[j] == inputs[j]);
        if inputs.last() == src {
            let pushed = Port { node: NodeIndex(new_node), index: PortIndex((inputs.len() - 1) as usize) };
            assert(whole == rest.push(pushed));
            assert(inputs[inputs.len() - 1] == src);
            assert forall|m: int| 0 <= m < whole.len() implies {
                let c = #[trigger] whole[m];
                &&& c.node.0 == new_node
                &&& c.index.0 < inputs.len()
                &&& inputs[c.index.0 as int] == src
            } by {
                if m < rest.len() {
                    assert(whole[m] == rest[m]);
                } else {
                    assert(whole[m] == pushed);
                }
            }
            assert forall|m1: int, m2: int| 0 <= m1 < m2 < whole.len()
                implies whole[m1].index.0 < whole[m2].index.0 by {
                if m2 < rest.len() {
                    assert(whole[m1] == rest[m1] && whole[m2] == rest[m2]);
                } else {
                    assert(whole[m2] == pushed);
                    assert(whole[m1] == rest[m1]);
                    assert(rest[m1].index.0 < inputs.drop_last().len());
                }
            }
            assert forall|j: int| 0 <= j < inputs.len() && inputs[j] == src
                implies whole.contains(Port { node: NodeIndex(new_node), index: PortIndex(j as usize) }) by {
                if j < inputs.len() - 1 {
                    let e = Port { node: NodeIndex(new_node), index: PortIndex(j as usize) };
                    assert(rest.contains(e));
                    let m = choose|m: int| 0 <= m < rest.len() && rest[m] == e;
                    assert(whole[m] == e);
                } else {
                    assert(whole[whole.len() - 1] == pushed);
                    assert(pushed == Port { node: NodeIndex(new_node), index: PortIndex(j as usize) });
                }
            }
        } else {
            assert(whole == rest);
            assert forall|j: int| 0 <= j < inputs.len() && inputs[j] == src
                implies whole.contains(Port { node: NodeIndex(new_node), index: PortIndex(j as usize) }) by {
                let e = Port { node: NodeIndex(new_node), index: PortIndex(j as usize) };
                assert(j < inputs.len() - 1);
                assert(rest.contains(e));
                let m = choose|m: int| 0 <= m < rest.len() && rest[m] == e;
                assert(whole[m] == e);
            }
        }
    }
}

} // verus!
