//! Subgraph extraction: normalizing a node selection to a closed region
//! and materializing it as an independent hypergraph, with synthesized
//! `Input` nodes for every boundary edge entering the region and
//! synthesized `Output` nodes for every boundary edge leaving it.

use vstd::prelude::*;
use crate::hypergraph::{HyperGraph, Node, NodeIndex, Port, PortIndex, ascending, data_equiv, lemma_equiv_wf, lemma_body_decreases};

verus! {

broadcast use vstd::seq_lib::lemma_seq_contains_after_push;

/// Number of raised flags.
pub open spec fn count_true(s: Seq<bool>) -> int
    decreases s.len(),
{
    if s.len() == 0 {
        0
    } else {
        count_true(s.drop_last()) + if s.last() {
            1int
        } else {
            0
        }
    }
}

proof fn lemma_count_true_le(s: Seq<bool>)
    ensures
        0 <= count_true(s) <= s.len(),
    decreases s.len(),
{
    if s.len() > 0 {
        lemma_count_true_le(s.drop_last());
    }
}

proof fn lemma_count_true_update(s: Seq<bool>, t: Seq<bool>, i: int)
    requires
        s.len() == t.len(),
        0 <= i < s.len(),
        !s[i],
        t[i],
        forall|q: int| 0 <= q < s.len() && q != i ==> s[q] == t[q],
    ensures
        count_true(t) == count_true(s) + 1,
    decreases s.len(),
{
    if i == s.len() - 1 {
        assert(s.drop_last() =~= t.drop_last());
    } else {
        assert(forall|q: int|
            0 <= q < s.len() - 1 && q != i ==> s.drop_last()[q] == t.drop_last()[q]);
        lemma_count_true_update(s.drop_last(), t.drop_last(), i);
    }
}

impl<E> HyperGraph<E> {
    /// Node `i` has at least one consumer, and all of its consumers are
    /// flagged.
    pub open spec fn consumers_all_flagged(self, flags: Seq<bool>, i: int) -> bool {
        &&& exists|p: int|
            0 <= p < self.node_outputs(i).len() && (#[trigger] self.node_outputs(i)[p]).len() > 0
        &&& forall|p: int, k: int|
            0 <= p < self.node_outputs(i).len() && 0 <= k < self.node_outputs(i)[p].len()
                ==> flags[(#[trigger] self.node_outputs(i)[p][k]).node.0 as int]
    }

    /// Exec check for `consumers_all_flagged`.
    fn check_consumers_flagged(&self, n: NodeIndex, flags: &Vec<bool>) -> (r: bool)
        requires
            self.wf(),
            n.0 < self.node_count(),
            flags@.len() == self.node_count(),
        ensures
            r == self.consumers_all_flagged(flags@, n.0 as int),
    {
        let outs = match self.get_outputs(n) {
            Ok(v) => v,
            Err(_) => {
                proof {
                    assert(false);
                }
                return false;
            }
        };
        let mut any = false;
        let mut p: usize = 0;
        while p < outs.len()
            invariant
                self.wf(),
                n.0 < self.node_count(),
                flags@.len() == self.node_count(),
                outs@.len() == self.node_outputs(n.0 as int).len(),
                forall|q: int|
                    0 <= q < outs@.len() ==> #[trigger] outs@[q]@ == self.node_outputs(
                        n.0 as int,
                    )[q],
                p <= outs@.len(),
                any == exists|p2: int|
                    0 <= p2 < p && (#[trigger] self.node_outputs(n.0 as int)[p2]).len() > 0,
                forall|p2: int, k2: int|
                    0 <= p2 < p && 0 <= k2 < self.node_outputs(n.0 as int)[p2].len()
                        ==> flags@[(#[trigger] self.node_outputs(n.0 as int)[p2][k2]).node.0 as int],
            decreases outs@.len() - p,
        {
            let lst = &outs[p];
            let mut k: usize = 0;
            while k < lst.len()
                invariant
                    self.wf(),
                    n.0 < self.node_count(),
                    flags@.len() == self.node_count(),
                    p < self.node_outputs(n.0 as int).len(),
                    lst@ == self.node_outputs(n.0 as int)[p as int],
                    k <= lst@.len(),
                    forall|k2: int|
                        0 <= k2 < k ==> flags@[(#[trigger] self.node_outputs(
                            n.0 as int,
                        )[p as int][k2]).node.0 as int],
                decreases lst@.len() - k,
            {
                let c = lst[k];
                proof {
                    assert(self.node_wf(n.0 as int));
                }
                if !flags[c.node.0] {
                    return false;
                }
                k += 1;
            }
            if lst.len() > 0 {
                any = true;
                proof {
                    assert(self.node_outputs(n.0 as int)[p as int].len() > 0);
                }
            }
            p += 1;
        }
        any
    }

    /// Closes a selection under the pull-in rule: an interior node whose
    /// value is consumed only within the selection (and consumed at all)
    /// joins it.  The result is the selection's closure, in ascending node
    /// order.
    pub fn normalize_selection(&self, selection: &Vec<NodeIndex>) -> (r: Vec<NodeIndex>)
        requires
            self.wf(),
            forall|m: int| 0 <= m < selection@.len() ==> self.is_interior(
                (#[trigger] selection@[m]).0 as int,
            ),
        ensures
            ascending(r@),
            forall|m: int| 0 <= m < r@.len() ==> self.is_interior((#[trigger] r@[m]).0 as int),
            forall|m: int| 0 <= m < selection@.len() ==> r@.contains(#[trigger] selection@[m]),
            // the pull-in rule has no more candidates
            forall|i: int|
                self.is_interior(i) && !r@.contains(NodeIndex(i as usize)) ==> !(
                #[trigger] self.consumers_all_flagged(flags_of(r@, self.node_count() as int), i)),
    {
        let n = self.len();
        let mut flags: Vec<bool> = Vec::new();
        while flags.len() < n
            invariant
                flags@.len() <= n,
                forall|q: int| 0 <= q < flags@.len() ==> !(#[trigger] flags@[q]),
            decreases n - flags@.len(),
        {
            flags.push(false);
        }
        let mut m: usize = 0;
        while m < selection.len()
            invariant
                self.wf(),
                n == self.node_count(),
                flags@.len() == n,
                m <= selection@.len(),
                forall|m2: int| 0 <= m2 < selection@.len() ==> self.is_interior(
                    (#[trigger] selection@[m2]).0 as int,
                ),
                forall|m2: int| 0 <= m2 < m ==> flags@[(#[trigger] selection@[m2]).0 as int],
                forall|q: int| 0 <= q < n && #[trigger] flags@[q] ==> self.is_interior(q),
            decreases selection@.len() - m,
        {
            let node = selection[m];
            flags[node.0] = true;
            m += 1;
        }

        let mut changed = true;
        proof {
            lemma_count_true_le(flags@);
        }
        while changed
            invariant
                self.wf(),
                n == self.node_count(),
                flags@.len() == n,
                0 <= count_true(flags@) <= n,
                forall|m2: int| 0 <= m2 < selection@.len() ==> self.is_interior(
                    (#[trigger] selection@[m2]).0 as int,
                ),
                forall|m2: int| 0 <= m2 < selection@.len() ==> flags@[(
                #[trigger] selection@[m2]).0 as int],
                forall|q: int| 0 <= q < n && #[trigger] flags@[q] ==> self.is_interior(q),
                !changed ==> forall|i: int|
                    self.is_interior(i) && !flags@[i] ==> !(#[trigger] self.consumers_all_flagged(
                        flags@,
                        i,
                    )),
            decreases n - count_true(flags@), (if changed { 1int } else { 0int }),
        {
            proof {
                lemma_count_true_le(flags@);
            }
            let ghost flags_at_head = flags@;
            changed = false;
            let mut i: usize = 0;
            while i < n
                invariant
                    self.wf(),
                    n == self.node_count(),
                    flags@.len() == n,
                    0 <= count_true(flags_at_head) <= n,
                    i <= n,
                    forall|m2: int| 0 <= m2 < selection@.len() ==> self.is_interior(
                        (#[trigger] selection@[m2]).0 as int,
                    ),
                    forall|m2: int| 0 <= m2 < selection@.len() ==> flags@[(
                    #[trigger] selection@[m2]).0 as int],
                    forall|q: int| 0 <= q < n && #[trigger] flags@[q] ==> self.is_interior(q),
                    count_true(flags@) >= count_true(flags_at_head),
                    changed ==> count_true(flags@) > count_true(flags_at_head),
                    !changed ==> flags@ == flags_at_head,
                    !changed ==> forall|i2: int|
                        0 <= i2 < i && self.is_interior(i2) && !flags@[i2] ==> !(
                        #[trigger] self.consumers_all_flagged(flags@, i2)),
                decreases n - i,
            {
                let node = NodeIndex(i);
                let is_interior_node = match self.get(node) {
                    Ok(d) => matches!(d, Node::Weight(_)) || matches!(d, Node::Thunk { .. }),
                    Err(_) => {
                        proof {
                            assert(false);
                        }
                        false
                    }
                };
                if is_interior_node && !flags[i] {
                    if self.check_consumers_flagged(node, &flags) {
                        let ghost pre = flags@;
                        flags[i] = true;
                        changed = true;
                        proof {
                            lemma_count_true_update(pre, flags@, i as int);
                        }
                    }
                }
                i += 1;
            }
            proof {
                lemma_count_true_le(flags@);
            }
        }

        // collect the flagged nodes in ascending index order
        let mut r: Vec<NodeIndex> = Vec::new();
        let mut i: usize = 0;
        while i < n
            invariant
                n == self.node_count(),
                flags@.len() == n,
                i <= n,
                ascending(r@),
                forall|q: int| 0 <= q < n && #[trigger] flags@[q] ==> self.is_interior(q),
                forall|m2: int| 0 <= m2 < r@.len() ==> (#[trigger] r@[m2]).0 < i && flags@[r@[m2].0 as int],
                forall|q: int| 0 <= q < i && #[trigger] flags@[q] ==> r@.contains(
                    NodeIndex(q as usize),
                ),
            decreases n - i,
        {
            if flags[i] {
                r.push(NodeIndex(i));
            }
            i += 1;
        }
        proof {
            assert(flags_of(r@, n as int) =~= flags@) by {
                assert forall|q: int| 0 <= q < n implies flags_of(r@, n as int)[q] == flags@[q] by {
                    if flags@[q] {
                        assert(r@.contains(NodeIndex(q as usize)));
                    } else {
                        if r@.contains(NodeIndex(q as usize)) {
                            let m2 = choose|m2: int|
                                0 <= m2 < r@.len() && r@[m2] == NodeIndex(q as usize);
                            assert(flags@[r@[m2].0 as int]);
                        }
                    }
                }
            }
            assert forall|m2: int| 0 <= m2 < selection@.len() implies r@.contains(
                #[trigger] selection@[m2],
            ) by {
                assert(flags@[selection@[m2].0 as int]);
                assert(r@.contains(NodeIndex(selection@[m2].0 as int as usize)));
                assert(NodeIndex(selection@[m2].0 as int as usize) == selection@[m2]);
            }
        }
        r
    }
}

/// The flag vector a node list denotes.
pub open spec fn flags_of(s: Seq<NodeIndex>, n: int) -> Seq<bool> {
    Seq::new(n as nat, |q: int| s.contains(NodeIndex(q as usize)))
}


/// The wiring among the selected nodes is preserved port for port: an
/// edge whose source is also selected maps to the corresponding new port,
/// and an edge entering from outside ends at a synthesized `Input` node.
pub open spec fn edges_preserved<E>(
    g: HyperGraph<E>,
    sel: Seq<NodeIndex>,
    r: HyperGraph<E>,
    mapping: Seq<NodeIndex>,
) -> bool {
    forall|m: int, k2: int|
        #![trigger g.node_inputs(sel[m].0 as int)[k2]]
        0 <= m < sel.len() && 0 <= k2 < g.node_inputs(sel[m].0 as int).len() ==> {
            let src = g.node_inputs(sel[m].0 as int)[k2];
            &&& (forall|m2: int|
                0 <= m2 < sel.len() && (#[trigger] sel[m2]) == src.node ==> r.node_inputs(
                    mapping[m].0 as int,
                )[k2] == Port { node: mapping[m2], index: src.index })
            &&& (!sel.contains(src.node) ==> r.node_data(
                r.node_inputs(mapping[m].0 as int)[k2].node.0 as int,
            ) is Input)
        }
}

impl<E: Copy> HyperGraph<E> {
    /// Materializes the selected nodes as an independent hypergraph.  Every
    /// boundary edge entering the selection gets a synthesized `Input` node
    /// (one per distinct external source port, in encounter order), and
    /// every selected output port with a consumer outside the selection
    /// gets a synthesized `Output` node.  The result is fully independent
    /// of this graph.  Returns the new graph and, per selected node, its
    /// index there: every node of the extraction is a selected node or a
    /// synthesized boundary marker, and no edge of it can reference a node
    /// outside it (well-formedness).
    #[verifier::rlimit(100)]
    pub fn extract_subgraph(&self, selection: &Vec<NodeIndex>) -> (res: (HyperGraph<E>, Vec<NodeIndex>))
        requires
            self.wf(),
            ascending(selection@),
            forall|m: int| 0 <= m < selection@.len() ==> self.is_interior(
                (#[trigger] selection@[m]).0 as int,
            ),
        ensures
            res.0.wf(),
            res.1@.len() == selection@.len(),
            forall|m: int| 0 <= m < res.1@.len() ==> {
                &&& (#[trigger] res.1@[m]).0 < res.0.node_count()
                &&& data_equiv(self.node_data(selection@[m].0 as int), res.0.node_data(res.1@[m].0 as int))
                &&& res.0.node_inputs(res.1@[m].0 as int).len() == self.node_inputs(
                    selection@[m].0 as int,
                ).len()
                &&& res.0.node_outputs(res.1@[m].0 as int).len() == self.node_outputs(
                    selection@[m].0 as int,
                ).len()
            },
            forall|i: int|
                0 <= i < res.0.node_count() ==> (exists|m: int|
                    0 <= m < res.1@.len() && (#[trigger] res.1@[m]).0 == i) || (
                #[trigger] res.0.node_data(i)) is Input || res.0.node_data(i) is Output,
            edges_preserved(*self, selection@, res.0, res.1@),
    {
        let mut out: HyperGraph<E> = HyperGraph::new();
        let mut mapping: Vec<NodeIndex> = Vec::new();
        let mut in_map: Vec<(Port, NodeIndex)> = Vec::new();

        let mut t: usize = 0;
        while t < selection.len()
            invariant
                self.wf(),
                ascending(selection@),
                forall|m: int| 0 <= m < selection@.len() ==> self.is_interior(
                    (#[trigger] selection@[m]).0 as int,
                ),
                t <= selection@.len(),
                out.wf(),
                mapping@.len() == t,
                forall|m: int| 0 <= m < t ==> {
                    &&& (#[trigger] mapping@[m]).0 < out.node_count()
                    &&& data_equiv(self.node_data(selection@[m].0 as int), out.node_data(mapping@[m].0 as int))
                    &&& out.node_inputs(mapping@[m].0 as int).len() == self.node_inputs(
                        selection@[m].0 as int,
                    ).len()
                    &&& out.node_outputs(mapping@[m].0 as int).len() == self.node_outputs(
                        selection@[m].0 as int,
                    ).len()
                },
                forall|i: int|
                    0 <= i < out.node_count() ==> (exists|m: int|
                        0 <= m < mapping@.len() && (#[trigger] mapping@[m]).0 == i) || (
                    #[trigger] out.node_data(i)) is Input,
                forall|e: int| 0 <= e < in_map@.len() ==> {
                    &&& (#[trigger] in_map@[e]).1.0 < out.node_count()
                    &&& out.node_data(in_map@[e].1.0 as int) is Input
                    &&& out.node_outputs(in_map@[e].1.0 as int).len() == 1
                },
                edges_preserved(*self, selection@.take(t as int), out, mapping@),
            decreases selection@.len() - t,
        {
            let n = selection[t];
            let inps = match self.get_inputs(n) {
                Ok(v) => v,
                Err(_) => {
                    proof {
                        assert(false);
                    }
                    return (out, mapping);
                }
            };
            let mut new_inputs: Vec<Port> = Vec::new();
            let mut k: usize = 0;
            while k < inps.len()
                invariant
                    self.wf(),
                    ascending(selection@),
                    forall|m: int| 0 <= m < selection@.len() ==> self.is_interior(
                        (#[trigger] selection@[m]).0 as int,
                    ),
                    t < selection@.len(),
                    n == selection@[t as int],
                    n.0 < self.node_count(),
                    inps@ == self.node_inputs(n.0 as int),
                    k <= inps@.len(),
                    out.wf(),
                    mapping@.len() == t,
                    forall|m: int| 0 <= m < t ==> {
                        &&& (#[trigger] mapping@[m]).0 < out.node_count()
                        &&& data_equiv(self.node_data(selection@[m].0 as int), out.node_data(mapping@[m].0 as int))
                        &&& out.node_inputs(mapping@[m].0 as int).len() == self.node_inputs(
                            selection@[m].0 as int,
                        ).len()
                        &&& out.node_outputs(mapping@[m].0 as int).len() == self.node_outputs(
                            selection@[m].0 as int,
                        ).len()
                    },
                    forall|i: int|
                        0 <= i < out.node_count() ==> (exists|m: int|
                            0 <= m < mapping@.len() && (#[trigger] mapping@[m]).0 == i) || (
                        #[trigger] out.node_data(i)) is Input,
                    forall|e: int| 0 <= e < in_map@.len() ==> {
                        &&& (#[trigger] in_map@[e]).1.0 < out.node_count()
                        &&& out.node_data(in_map@[e].1.0 as int) is Input
                        &&& out.node_outputs(in_map@[e].1.0 as int).len() == 1
                    },
                    edges_preserved(*self, selection@.take(t as int), out, mapping@),
                    new_inputs@.len() == k,
                    forall|k2: int| 0 <= k2 < k ==> out.valid_out_port(#[trigger] new_inputs@[k2]),
                    forall|k2: int, m2: int|
                        #![trigger new_inputs@[k2], selection@[m2]]
                        0 <= k2 < k && 0 <= m2 < selection@.len() && selection@[m2]
                            == self.node_inputs(n.0 as int)[k2].node ==> new_inputs@[k2] == (Port {
                            node: mapping@[m2],
                            index: self.node_inputs(n.0 as int)[k2].index,
                        }),
                    forall|k2: int|
                        0 <= k2 < k && !selection@.contains(
                            self.node_inputs(n.0 as int)[k2].node,
                        ) ==> out.node_data((#[trigger] new_inputs@[k2]).node.0 as int) is Input,
                decreases inps@.len() - k,
            {
                let p = inps[k];
                proof {
                    assert(self.node_wf(n.0 as int));
                }
                let sel_pos = find_index(selection, p.node);
                let port: Port = match sel_pos {
                    Some(m) => {
                        proof {
                            // the producer was processed earlier: it has a
                            // smaller index than `n`, and the selection is
                            // ascending
                            assert(selection@[m as int] == p.node);
                            assert(p.node.0 < n.0);
                            if m as int >= t {
                                if m as int > t {
                                    assert(selection@[t as int].0 < selection@[m as int].0);
                                }
                                assert(false);
                            }
                        }
                        Port { node: mapping[m], index: p.index }
                    }
                    None => {
                        let known = find_port_entry(&in_map, p);
                        match known {
                            Some(idx) => Port { node: idx, index: PortIndex(0) },
                            None => {
                                let ghost pre_out = out;
                                let empty_inputs: Vec<Port> = Vec::new();
                                let rr = out.add_node(Node::Input, empty_inputs, 1);
                                let idx = match rr {
                                    Ok(idx) => idx,
                                    Err(_) => {
                                        proof {
                                            assert(false);
                                        }
                                        return (out, mapping);
                                    }
                                };
                                let ghost pre_in_map = in_map@;
                                in_map.push((p, idx));
                                proof {
                                    assert(pre_out.add_node_ok(out, Node::Input, Seq::<Port>::empty(), 1));
                                    assert(out.node_outputs(idx.0 as int) =~= Seq::new(1, |p2: int| Seq::<Port>::empty()));
                                    assert(out.node_outputs(idx.0 as int).len() == 1);
                                    assert forall|e: int| 0 <= e < in_map@.len() implies {
                                        &&& (#[trigger] in_map@[e]).1.0 < out.node_count()
                                        &&& out.node_data(in_map@[e].1.0 as int) is Input
                                        &&& out.node_outputs(in_map@[e].1.0 as int).len() == 1
                                    } by {
                                        if e < pre_in_map.len() {
                                            assert(in_map@[e] == pre_in_map[e]);
                                            assert(out.node_data(pre_in_map[e].1.0 as int)
                                                == pre_out.node_data(pre_in_map[e].1.0 as int));
                                            assert(out.node_outputs(pre_in_map[e].1.0 as int).len()
                                                == pre_out.node_outputs(pre_in_map[e].1.0 as int).len());
                                        }
                                    }
                                    assert forall|m: int| 0 <= m < t implies {
                                        &&& (#[trigger] mapping@[m]).0 < out.node_count()
                                        &&& data_equiv(self.node_data(selection@[m].0 as int), out.node_data(mapping@[m].0 as int))
                                        &&& out.node_inputs(mapping@[m].0 as int).len() == self.node_inputs(
                                            selection@[m].0 as int,
                                        ).len()
                                        &&& out.node_outputs(mapping@[m].0 as int).len() == self.node_outputs(
                                            selection@[m].0 as int,
                                        ).len()
                                    } by {
                                        assert(out.node_data(mapping@[m].0 as int)
                                            == pre_out.node_data(mapping@[m].0 as int));
                                        assert(out.node_inputs(mapping@[m].0 as int)
                                            == pre_out.node_inputs(mapping@[m].0 as int));
                                        assert(out.node_outputs(mapping@[m].0 as int).len()
                                            == pre_out.node_outputs(mapping@[m].0 as int).len());
                                    }
                                    assert forall|i: int| 0 <= i < out.node_count() implies (exists|m: int|
                                        0 <= m < mapping@.len() && (#[trigger] mapping@[m]).0 == i) || (
                                    #[trigger] out.node_data(i)) is Input by {
                                        if i < pre_out.node_count() {
                                            assert(out.node_data(i) == pre_out.node_data(i));
                                        } else {
                                            assert(out.node_data(i) is Input);
                                        }
                                    }
                                    assert forall|k2: int|
                                        0 <= k2 < k && !selection@.contains(
                                            self.node_inputs(n.0 as int)[k2].node,
                                        ) implies out.node_data(
                                        (#[trigger] new_inputs@[k2]).node.0 as int,
                                    ) is Input by {
                                        assert(out.node_data(new_inputs@[k2].node.0 as int)
                                            == pre_out.node_data(new_inputs@[k2].node.0 as int));
                                    }
                                    assert forall|m: int, k2: int|
                                        #![trigger self.node_inputs(selection@.take(t as int)[m].0 as int)[k2]]
                                        0 <= m < t && 0 <= k2 < self.node_inputs(
                                            selection@.take(t as int)[m].0 as int,
                                        ).len() implies {
                                        let src = self.node_inputs(
                                            selection@.take(t as int)[m].0 as int,
                                        )[k2];
                                        &&& (forall|m2: int|
                                            0 <= m2 < t && (#[trigger] selection@.take(
                                                t as int,
                                            )[m2]) == src.node ==> out.node_inputs(
                                                mapping@[m].0 as int,
                                            )[k2] == Port { node: mapping@[m2], index: src.index })
                                        &&& (!selection@.take(t as int).contains(src.node)
                                            ==> out.node_data(
                                            out.node_inputs(mapping@[m].0 as int)[k2].node.0 as int,
                                        ) is Input)
                                    } by {
                                        assert(out.node_inputs(mapping@[m].0 as int)
                                            == pre_out.node_inputs(mapping@[m].0 as int));
                                        let src = self.node_inputs(
                                            selection@.take(t as int)[m].0 as int,
                                        )[k2];
                                        if !selection@.take(t as int).contains(src.node) {
                                            assert(pre_out.node_data(pre_out.node_inputs(
                                                mapping@[m].0 as int,
                                            )[k2].node.0 as int) is Input);
                                            assert(pre_out.node_wf(mapping@[m].0 as int));
                                            assert(pre_out.node_inputs(mapping@[m].0 as int)[k2].node.0
                                                < pre_out.node_count());
                                            assert(out.node_data(out.node_inputs(
                                                mapping@[m].0 as int,
                                            )[k2].node.0 as int) == pre_out.node_data(
                                                pre_out.node_inputs(mapping@[m].0 as int)[k2].node.0 as int,
                                            ));
                                        }
                                    }
                                    assert(edges_preserved(*self, selection@.take(t as int), out, mapping@));
                                }
                                Port { node: idx, index: PortIndex(0) }
                            }
                        }
                    }
                };
                proof {
                    assert(out.valid_out_port(port));
                }
                let ghost pre_inputs = new_inputs@;
                new_inputs.push(port);
                proof {
                    assert(new_inputs@[new_inputs@.len() - 1] == port);
                    assert forall|k2: int, m2: int|
                        #![trigger new_inputs@[k2], selection@[m2]]
                        0 <= k2 < k + 1 && 0 <= m2 < selection@.len() && selection@[m2]
                            == self.node_inputs(n.0 as int)[k2].node implies new_inputs@[k2] == (
                    Port { node: mapping@[m2], index: self.node_inputs(n.0 as int)[k2].index }) by {
                        if k2 < k {
                            assert(new_inputs@[k2] == pre_inputs[k2]);
                        } else {
                            // the producer occurs once in the ascending
                            // selection, at the position the lookup found
                            match sel_pos {
                                Some(m) => {
                                    assert(selection@[m as int] == p.node);
                                    if m2 != m as int {
                                        if m2 < m as int {
                                            assert(selection@[m2].0 < selection@[m as int].0);
                                        } else {
                                            assert(selection@[m as int].0 < selection@[m2].0);
                                        }
                                        assert(false);
                                    }
                                }
                                None => {
                                    assert(selection@.contains(p.node));
                                    assert(false);
                                }
                            }
                        }
                    }
                    assert forall|k2: int|
                        0 <= k2 < k + 1 && !selection@.contains(
                            self.node_inputs(n.0 as int)[k2].node,
                        ) implies out.node_data(
                        (#[trigger] new_inputs@[k2]).node.0 as int,
                    ) is Input by {
                        if k2 < k {
                            assert(new_inputs@[k2] == pre_inputs[k2]);
                        } else {
                            match sel_pos {
                                Some(m) => {
                                    assert(selection@[m as int] == p.node);
                                    assert(selection@.contains(p.node));
                                    assert(false);
                                }
                                None => {
                                }
                            }
                        }
                    }
                }
                k += 1;
            }
            let data_ref = match self.get(n) {
                Ok(d) => d,
                Err(_) => {
                    proof {
                        assert(false);
                    }
                    return (out, mapping);
                }
            };
            let data = data_ref.duplicate();
            let outs_n = match self.number_of_outputs(n) {
                Ok(o) => o,
                Err(_) => {
                    proof {
                        assert(false);
                    }
                    return (out, mapping);
                }
            };
            proof {
                // the copied data satisfies the construction obligations
                assert(data_equiv(self.node_data(n.0 as int), data));
                assert(self.node_wf(n.0 as int));
                match self.node_data(n.0 as int) {
                    Node::Thunk { args, body } => {
                        assert(body.wf());
                        lemma_body_decreases(*self, n.0 as int);
                        lemma_equiv_wf(body, data->body);
                        assert(args <= self.node_inputs(n.0 as int).len());
                    }
                    _ => {}
                }
                assert(!(data is Input) && !(data is Output));
            }
            let ghost pre_out = out;
            let ghost new_inputs_view = new_inputs@;
            let rr = out.add_node(data, new_inputs, outs_n);
            let idx = match rr {
                Ok(idx) => idx,
                Err(_) => {
                    proof {
                        assert(pre_out.all_inputs_valid(new_inputs_view));
                        assert(false);
                    }
                    return (out, mapping);
                }
            };
            let ghost pre_mapping = mapping@;
            mapping.push(idx);
            proof {
                assert(pre_out.add_node_ok(out, data, new_inputs_view, outs_n as int));
                assert(out.node_outputs(idx.0 as int) =~= Seq::new(
                    outs_n as nat,
                    |p2: int| Seq::<Port>::empty(),
                ));
                assert forall|m: int| 0 <= m < mapping@.len() implies {
                    &&& (#[trigger] mapping@[m]).0 < out.node_count()
                    &&& data_equiv(self.node_data(selection@[m].0 as int), out.node_data(mapping@[m].0 as int))
                    &&& out.node_inputs(mapping@[m].0 as int).len() == self.node_inputs(
                        selection@[m].0 as int,
                    ).len()
                    &&& out.node_outputs(mapping@[m].0 as int).len() == self.node_outputs(
                        selection@[m].0 as int,
                    ).len()
                } by {
                    if m < pre_mapping.len() {
                        assert(mapping@[m] == pre_mapping[m]);
                        assert(out.node_data(pre_mapping[m].0 as int)
                            == pre_out.node_data(pre_mapping[m].0 as int));
                        assert(out.node_inputs(pre_mapping[m].0 as int)
                            == pre_out.node_inputs(pre_mapping[m].0 as int));
                        assert(out.node_outputs(pre_mapping[m].0 as int).len()
                            == pre_out.node_outputs(pre_mapping[m].0 as int).len());
                    } else {
                        assert(mapping@[m] == idx);
                        assert(out.node_data(idx.0 as int) == data);
                    }
                }
                assert forall|e: int| 0 <= e < in_map@.len() implies {
                    &&& (#[trigger] in_map@[e]).1.0 < out.node_count()
                    &&& out.node_data(in_map@[e].1.0 as int) is Input
                    &&& out.node_outputs(in_map@[e].1.0 as int).len() == 1
                } by {
                    assert(out.node_data(in_map@[e].1.0 as int)
                        == pre_out.node_data(in_map@[e].1.0 as int));
                    assert(out.node_outputs(in_map@[e].1.0 as int).len()
                        == pre_out.node_outputs(in_map@[e].1.0 as int).len());
                }
                assert forall|i: int| 0 <= i < out.node_count() implies (exists|m: int|
                    0 <= m < mapping@.len() && (#[trigger] mapping@[m]).0 == i) || (
                #[trigger] out.node_data(i)) is Input by {
                    if i < pre_out.node_count() {
                        assert(out.node_data(i) == pre_out.node_data(i));
                        if !(pre_out.node_data(i) is Input) {
                            let m0 = choose|m0: int|
                                0 <= m0 < pre_mapping.len() && (#[trigger] pre_mapping[m0]).0 == i;
                            assert(mapping@[m0].0 == i);
                        }
                    } else {
                        assert(mapping@[mapping@.len() - 1].0 == i);
                    }
                }
                // wiring of the processed prefix, now including node t
                assert(selection@.take(t + 1).drop_last() =~= selection@.take(t as int));
                assert forall|m: int, k2: int|
                    #![trigger self.node_inputs(selection@.take(t + 1)[m].0 as int)[k2]]
                    0 <= m < t + 1 && 0 <= k2 < self.node_inputs(
                        selection@.take(t + 1)[m].0 as int,
                    ).len() implies {
                    let src = self.node_inputs(selection@.take(t + 1)[m].0 as int)[k2];
                    &&& (forall|m2: int|
                        0 <= m2 < t + 1 && (#[trigger] selection@.take(t + 1)[m2]) == src.node
                            ==> out.node_inputs(pre_mapping.push(idx)[m].0 as int)[k2] == Port {
                            node: pre_mapping.push(idx)[m2],
                            index: src.index,
                        })
                    &&& (!selection@.take(t + 1).contains(src.node) ==> out.node_data(
                        out.node_inputs(pre_mapping.push(idx)[m].0 as int)[k2].node.0 as int,
                    ) is Input)
                } by {
                    assert(selection@.take(t + 1)[m] == selection@[m]);
                    let src = self.node_inputs(selection@[m].0 as int)[k2];
                    if m < t {
                        // already-preserved edges are untouched by the add
                        assert(self.node_wf(selection@[m].0 as int));
                        assert(pre_mapping.push(idx)[m] == pre_mapping[m]);
                        assert(out.node_inputs(pre_mapping[m].0 as int)
                            == pre_out.node_inputs(pre_mapping[m].0 as int));
                        assert forall|m2: int|
                            0 <= m2 < t + 1 && (#[trigger] selection@.take(t + 1)[m2]) == src.node
                            implies out.node_inputs(pre_mapping.push(idx)[m].0 as int)[k2]
                            == Port { node: pre_mapping.push(idx)[m2], index: src.index } by {
                            assert(src.node.0 < selection@[m].0);
                            if m2 == t {
                                assert(selection@[t as int].0 > selection@[m].0);
                                assert(false);
                            } else {
                                assert(selection@.take(t as int)[m2] == src.node);
                                assert(pre_out.node_inputs(pre_mapping[m].0 as int)[k2]
                                    == Port { node: pre_mapping[m2], index: src.index });
                            }
                        }
                        if !selection@.take(t + 1).contains(src.node) {
                            assert(!selection@.take(t as int).contains(src.node)) by {
                                if selection@.take(t as int).contains(src.node) {
                                    let w = choose|w: int|
                                        0 <= w < t && selection@.take(t as int)[w] == src.node;
                                    assert(selection@.take(t + 1)[w] == src.node);
                                }
                            }
                            assert(pre_out.node_data(pre_out.node_inputs(
                                pre_mapping[m].0 as int,
                            )[k2].node.0 as int) is Input);
                            assert(pre_out.node_wf(pre_mapping[m].0 as int));
                            assert(pre_out.node_inputs(pre_mapping[m].0 as int)[k2].node.0
                                < pre_out.node_count());
                        }
                    } else {
                        // the freshly added node: its inputs are new_inputs
                        assert(pre_mapping.push(idx)[m] == idx);
                        assert(out.node_inputs(idx.0 as int) == new_inputs_view);
                        assert(selection@[m] == n);
                        assert(src == self.node_inputs(n.0 as int)[k2]);
                        assert forall|m2: int|
                            0 <= m2 < t + 1 && (#[trigger] selection@.take(t + 1)[m2]) == src.node
                            implies out.node_inputs(pre_mapping.push(idx)[m].0 as int)[k2]
                            == Port { node: pre_mapping.push(idx)[m2], index: src.index } by {
                            assert(selection@[m2] == src.node);
                            assert(new_inputs_view[k2] == Port {
                                node: pre_mapping[m2],
                                index: src.index,
                            });
                            assert(m2 < t) by {
                                assert(self.node_wf(n.0 as int));
                                assert(src.node.0 < n.0);
                                if m2 >= t {
                                    if m2 > t {
                                        assert(selection@[t as int].0 < selection@[m2].0);
                                    }
                                    assert(false);
                                }
                            }
                            assert(pre_mapping.push(idx)[m2] == pre_mapping[m2]);
                        }
                        if !selection@.take(t + 1).contains(src.node) {
                            assert(!selection@.contains(src.node)) by {
                                if selection@.contains(src.node) {
                                    let w = choose|w: int|
                                        0 <= w < selection@.len() && selection@[w] == src.node;
                                    assert(self.node_wf(n.0 as int));
                                    assert(src.node.0 < n.0);
                                    assert(w < t + 1) by {
                                        if w > t {
                                            assert(selection@[t as int].0 < selection@[w].0);
                                            assert(false);
                                        }
                                    }
                                    assert(selection@.take(t + 1)[w] == src.node);
                                }
                            }
                            assert(pre_out.node_data(new_inputs_view[k2].node.0 as int) is Input);
                            assert(new_inputs_view[k2].node.0 < pre_out.node_count()) by {
                                assert(pre_out.valid_out_port(new_inputs_view[k2]));
                            }
                            assert(out.node_data(new_inputs_view[k2].node.0 as int)
                                == pre_out.node_data(new_inputs_view[k2].node.0 as int));
                        }
                    }
                }
                assert(edges_preserved(
                    *self,
                    selection@.take(t + 1),
                    out,
                    pre_mapping.push(idx),
                ));
                assert(mapping@ == pre_mapping.push(idx));
            }
            t += 1;
        }

        proof {
            assert(selection@.take(selection@.len() as int) =~= selection@);
        }
        // synthesize an Output node for every selected port consumed
        // outside the selection
        let mut t2: usize = 0;
        while t2 < selection.len()
            invariant
                self.wf(),
                ascending(selection@),
                forall|m: int| 0 <= m < selection@.len() ==> self.is_interior(
                    (#[trigger] selection@[m]).0 as int,
                ),
                t2 <= selection@.len(),
                out.wf(),
                mapping@.len() == selection@.len(),
                forall|m: int| 0 <= m < mapping@.len() ==> {
                    &&& (#[trigger] mapping@[m]).0 < out.node_count()
                    &&& data_equiv(self.node_data(selection@[m].0 as int), out.node_data(mapping@[m].0 as int))
                    &&& out.node_inputs(mapping@[m].0 as int).len() == self.node_inputs(
                        selection@[m].0 as int,
                    ).len()
                    &&& out.node_outputs(mapping@[m].0 as int).len() == self.node_outputs(
                        selection@[m].0 as int,
                    ).len()
                },
                forall|i: int|
                    0 <= i < out.node_count() ==> (exists|m: int|
                        0 <= m < mapping@.len() && (#[trigger] mapping@[m]).0 == i) || (
                    #[trigger] out.node_data(i)) is Input || out.node_data(i) is Output,
                edges_preserved(*self, selection@, out, mapping@),
            decreases selection@.len() - t2,
        {
            let n = selection[t2];
            let outs_n = match self.number_of_outputs(n) {
                Ok(o) => o,
                Err(_) => {
                    proof {
                        assert(false);
                    }
                    return (out, mapping);
                }
            };
            let mut q: usize = 0;
            while q < outs_n
                invariant
                    self.wf(),
                    ascending(selection@),
                    forall|m: int| 0 <= m < selection@.len() ==> self.is_interior(
                        (#[trigger] selection@[m]).0 as int,
                    ),
                    t2 < selection@.len(),
                    n == selection@[t2 as int],
                    n.0 < self.node_count(),
                    outs_n == self.node_outputs(n.0 as int).len(),
                    q <= outs_n,
                    out.wf(),
                    mapping@.len() == selection@.len(),
                    forall|m: int| 0 <= m < mapping@.len() ==> {
                        &&& (#[trigger] mapping@[m]).0 < out.node_count()
                        &&& data_equiv(self.node_data(selection@[m].0 as int), out.node_data(mapping@[m].0 as int))
                        &&& out.node_inputs(mapping@[m].0 as int).len() == self.node_inputs(
                            selection@[m].0 as int,
                        ).len()
                        &&& out.node_outputs(mapping@[m].0 as int).len() == self.node_outputs(
                            selection@[m].0 as int,
                        ).len()
                    },
                    forall|i: int|
                        0 <= i < out.node_count() ==> (exists|m: int|
                            0 <= m < mapping@.len() && (#[trigger] mapping@[m]).0 == i) || (
                        #[trigger] out.node_data(i)) is Input || out.node_data(i) is Output,
                    edges_preserved(*self, selection@, out, mapping@),
                decreases outs_n - q,
            {
                // does any consumer of this port lie outside the selection?
                let outs = match self.get_outputs(n) {
                    Ok(v) => v,
                    Err(_) => {
                        proof {
                            assert(false);
                        }
                        return (out, mapping);
                    }
                };
                let lst = &outs[q];
                let mut escapes = false;
                let mut k: usize = 0;
                while k < lst.len()
                    invariant
                        self.wf(),
                        n.0 < self.node_count(),
                        q < self.node_outputs(n.0 as int).len(),
                        lst@ == self.node_outputs(n.0 as int)[q as int],
                        k <= lst@.len(),
                    decreases lst@.len() - k,
                {
                    let c = lst[k];
                    if find_index(selection, c.node).is_none() {
                        escapes = true;
                    }
                    k += 1;
                }
                if escapes {
                    let mut one_input: Vec<Port> = Vec::new();
                    one_input.push(Port { node: mapping[t2], index: PortIndex(q) });
                    proof {
                        assert(out.valid_out_port(one_input@[0]));
                        assert(forall|k2: int|
                            0 <= k2 < one_input@.len() ==> out.valid_out_port(
                                #[trigger] one_input@[k2],
                            ));
                    }
                    let ghost pre_out = out;
                    let rr = out.add_node(Node::Output, one_input, 0);
                    match rr {
                        Ok(_) => {}
                        Err(_) => {
                            proof {
                                assert(pre_out.all_inputs_valid(
                                    seq![Port { node: mapping@[t2 as int], index: PortIndex(q as usize) }],
                                ));
                                assert(false);
                            }
                            return (out, mapping);
                        }
                    }
                    proof {
                        // a synthesized Output leaves the preserved wiring alone
                        assert forall|m: int, k2: int|
                            #![trigger self.node_inputs(selection@[m].0 as int)[k2]]
                            0 <= m < selection@.len() && 0 <= k2 < self.node_inputs(
                                selection@[m].0 as int,
                            ).len() implies {
                            let src = self.node_inputs(selection@[m].0 as int)[k2];
                            &&& (forall|m2: int|
                                0 <= m2 < selection@.len() && (#[trigger] selection@[m2])
                                    == src.node ==> out.node_inputs(mapping@[m].0 as int)[k2]
                                    == Port { node: mapping@[m2], index: src.index })
                            &&& (!selection@.contains(src.node) ==> out.node_data(
                                out.node_inputs(mapping@[m].0 as int)[k2].node.0 as int,
                            ) is Input)
                        } by {
                            assert(out.node_inputs(mapping@[m].0 as int)
                                == pre_out.node_inputs(mapping@[m].0 as int));
                            let src = self.node_inputs(selection@[m].0 as int)[k2];
                            if !selection@.contains(src.node) {
                                assert(pre_out.node_data(pre_out.node_inputs(
                                    mapping@[m].0 as int,
                                )[k2].node.0 as int) is Input);
                                assert(pre_out.node_wf(mapping@[m].0 as int));
                                assert(pre_out.node_inputs(mapping@[m].0 as int)[k2].node.0
                                    < pre_out.node_count());
                                assert(out.node_data(out.node_inputs(
                                    mapping@[m].0 as int,
                                )[k2].node.0 as int) == pre_out.node_data(
                                    pre_out.node_inputs(mapping@[m].0 as int)[k2].node.0 as int,
                                ));
                            }
                        }
                        assert(edges_preserved(*self, selection@, out, mapping@));
                    }
                }
                q += 1;
            }
            t2 += 1;
        }
        (out, mapping)
    }
}

/// The position of `x` in `v`, if present.
fn find_index(v: &Vec<NodeIndex>, x: NodeIndex) -> (r: Option<usize>)
    ensures
        match r {
            Some(m) => m < v@.len() && v@[m as int] == x,
            None => !v@.contains(x),
        },
{
    let mut i: usize = 0;
    while i < v.len()
        invariant
            i <= v@.len(),
            forall|q: int| 0 <= q < i ==> v@[q] != x,
        decreases v@.len() - i,
    {
        if v[i].0 == x.0 {
            proof {
                assert(v@[i as int] == x);
            }
            return Some(i);
        }
        i += 1;
    }
    proof {
        if v@.contains(x) {
            let q = choose|q: int| 0 <= q < v@.len() && v@[q] == x;
        }
    }
    None
}

/// The `Input` node recorded for an external source port, if any.
fn find_port_entry(entries: &Vec<(Port, NodeIndex)>, p: Port) -> (r: Option<NodeIndex>)
    ensures
        match r {
            Some(idx) => exists|e: int|
                0 <= e < entries@.len() && (#[trigger] entries@[e]).0 == p && entries@[e].1 == idx,
            None => true,
        },
{
    let mut i: usize = 0;
    while i < entries.len()
        invariant
            i <= entries@.len(),
        decreases entries@.len() - i,
    {
        if entries[i].0.node.0 == p.node.0 && entries[i].0.index.0 == p.index.0 {
            proof {
                assert(entries@[i as int].0 == p);
            }
            return Some(entries[i].1);
        }
        i += 1;
    }
    None
}

} // verus!
