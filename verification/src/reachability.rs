//! Reachability over one level of a hypergraph: successor and predecessor
//! queries, round-based forward/backward/bidirectional reachable sets with
//! depth limits, and a restartable breadth-first traversal whose depth
//! limit can be raised mid-iteration.

use vstd::prelude::*;
use crate::hypergraph::{HyperGraph, NodeIndex};

verus! {

broadcast use vstd::seq_lib::lemma_seq_contains_after_push;

impl<E> HyperGraph<E> {
    /// The nodes consuming any output of node `n`.
    pub open spec fn successors_set(self, n: int) -> Set<int> {
        Set::new(
            |c: int|
                exists|p: int, k: int|
                    0 <= p < self.node_outputs(n).len() && 0 <= k < self.node_outputs(n)[p].len()
                        && (#[trigger] self.node_outputs(n)[p][k]).node.0 == c,
        )
    }

    /// The nodes providing any input of node `n`.
    pub open spec fn predecessors_set(self, n: int) -> Set<int> {
        Set::new(
            |c: int|
                exists|k: int|
                    0 <= k < self.node_inputs(n).len() && (#[trigger] self.node_inputs(n)[k]).node.0
                        == c,
        )
    }

    /// The set of distinct nodes consuming any of `n`'s outputs.  A node is
    /// never its own successor: edges only run from lower to higher index.
    pub fn successors(&self, n: NodeIndex) -> (r: Vec<NodeIndex>)
        requires
            self.wf(),
            n.0 < self.node_count(),
        ensures
            forall|a: int, b: int| 0 <= a < b < r@.len() ==> r@[a] != r@[b],
            forall|m: int| 0 <= m < r@.len() ==> self.successors_set(n.0 as int).contains(
                (#[trigger] r@[m]).0 as int,
            ) && r@[m].0 < self.node_count(),
            forall|c: int|
                self.successors_set(n.0 as int).contains(c) ==> r@.contains(
                    NodeIndex(c as usize),
                ),
            !r@.contains(n),
    {
        let mut r: Vec<NodeIndex> = Vec::new();
        let outs = match self.get_outputs(n) {
            Ok(v) => v,
            Err(_) => {
                proof {
                    assert(false);
                }
                return r;
            }
        };
        let mut p: usize = 0;
        while p < outs.len()
            invariant
                self.wf(),
                n.0 < self.node_count(),
                outs@.len() == self.node_outputs(n.0 as int).len(),
                forall|q: int|
                    0 <= q < outs@.len() ==> #[trigger] outs@[q]@ == self.node_outputs(
                        n.0 as int,
                    )[q],
                p <= outs@.len(),
                forall|a: int, b: int| 0 <= a < b < r@.len() ==> r@[a] != r@[b],
                forall|m: int| 0 <= m < r@.len() ==> self.successors_set(n.0 as int).contains(
                    (#[trigger] r@[m]).0 as int,
                ) && r@[m].0 < self.node_count(),
                forall|p2: int, k2: int|
                    0 <= p2 < p && 0 <= k2 < self.node_outputs(n.0 as int)[p2].len() ==> r@.contains(
                        (#[trigger] self.node_outputs(n.0 as int)[p2][k2]).node,
                    ),
            decreases outs@.len() - p,
        {
            let lst = &outs[p];
            let mut k: usize = 0;
            while k < lst.len()
                invariant
                    self.wf(),
                    n.0 < self.node_count(),
                    p < self.node_outputs(n.0 as int).len(),
                    lst@ == self.node_outputs(n.0 as int)[p as int],
                    k <= lst@.len(),
                    forall|a: int, b: int| 0 <= a < b < r@.len() ==> r@[a] != r@[b],
                    forall|m: int| 0 <= m < r@.len() ==> self.successors_set(n.0 as int).contains(
                        (#[trigger] r@[m]).0 as int,
                    ) && r@[m].0 < self.node_count(),
                    forall|p2: int, k2: int|
                        0 <= p2 < p && 0 <= k2 < self.node_outputs(n.0 as int)[p2].len()
                            ==> r@.contains(
                            (#[trigger] self.node_outputs(n.0 as int)[p2][k2]).node,
                        ),
                    forall|k2: int|
                        0 <= k2 < k ==> r@.contains(
                            (#[trigger] self.node_outputs(n.0 as int)[p as int][k2]).node,
                        ),
                decreases lst@.len() - k,
            {
                let c = lst[k];
                proof {
                    assert(self.node_wf(n.0 as int));
                    assert(self.successors_set(n.0 as int).contains(c.node.0 as int));
                }
                push_unique(&mut r, c.node);
                k += 1;
            }
            p += 1;
        }
        proof {
            assert forall|c: int| self.successors_set(n.0 as int).contains(c) implies r@.contains(
                NodeIndex(c as usize),
            ) by {
                let (p2, k2) = choose|p2: int, k2: int|
                    0 <= p2 < self.node_outputs(n.0 as int).len() && 0 <= k2 < self.node_outputs(
                        n.0 as int,
                    )[p2].len() && (#[trigger] self.node_outputs(n.0 as int)[p2][k2]).node.0 == c;
                assert(r@.contains(self.node_outputs(n.0 as int)[p2][k2].node));
                assert(self.node_wf(n.0 as int));
                assert(self.node_outputs(n.0 as int)[p2][k2].node.0 < self.node_count());
                assert(self.node_outputs(n.0 as int)[p2][k2].node == NodeIndex(c as usize));
            }
            // acyclicity by construction: every consumer has a higher index
            if r@.contains(n) {
                let m = choose|m: int| 0 <= m < r@.len() && r@[m] == n;
                let c = r@[m].0 as int;
                let (p2, k2) = choose|p2: int, k2: int|
                    0 <= p2 < self.node_outputs(n.0 as int).len() && 0 <= k2 < self.node_outputs(
                        n.0 as int,
                    )[p2].len() && (#[trigger] self.node_outputs(n.0 as int)[p2][k2]).node.0 == c;
                assert(self.node_wf(n.0 as int));
                assert(false);
            }
        }
        r
    }

    /// The set of distinct nodes providing any of `n`'s inputs.  A node is
    /// never its own predecessor.
    pub fn predecessors(&self, n: NodeIndex) -> (r: Vec<NodeIndex>)
        requires
            self.wf(),
            n.0 < self.node_count(),
        ensures
            forall|a: int, b: int| 0 <= a < b < r@.len() ==> r@[a] != r@[b],
            forall|m: int| 0 <= m < r@.len() ==> self.predecessors_set(n.0 as int).contains(
                (#[trigger] r@[m]).0 as int,
            ) && r@[m].0 < self.node_count(),
            forall|c: int|
                self.predecessors_set(n.0 as int).contains(c) ==> r@.contains(
                    NodeIndex(c as usize),
                ),
            !r@.contains(n),
    {
        let mut r: Vec<NodeIndex> = Vec::new();
        let inps = match self.get_inputs(n) {
            Ok(v) => v,
            Err(_) => {
                proof {
                    assert(false);
                }
                return r;
            }
        };
        let mut k: usize = 0;
        while k < inps.len()
            invariant
                self.wf(),
                n.0 < self.node_count(),
                inps@ == self.node_inputs(n.0 as int),
                k <= inps@.len(),
                forall|a: int, b: int| 0 <= a < b < r@.len() ==> r@[a] != r@[b],
                forall|m: int| 0 <= m < r@.len() ==> self.predecessors_set(n.0 as int).contains(
                    (#[trigger] r@[m]).0 as int,
                ) && r@[m].0 < self.node_count(),
                forall|k2: int|
                    0 <= k2 < k ==> r@.contains((#[trigger] self.node_inputs(n.0 as int)[k2]).node),
            decreases inps@.len() - k,
        {
            let src = inps[k];
            proof {
                assert(self.node_wf(n.0 as int));
                assert(self.predecessors_set(n.0 as int).contains(src.node.0 as int));
            }
            push_unique(&mut r, src.node);
            k += 1;
        }
        proof {
            assert forall|c: int| self.predecessors_set(n.0 as int).contains(c) implies r@.contains(
                NodeIndex(c as usize),
            ) by {
                let k2 = choose|k2: int|
                    0 <= k2 < self.node_inputs(n.0 as int).len() && (#[trigger] self.node_inputs(
                        n.0 as int,
                    )[k2]).node.0 == c;
                assert(r@.contains(self.node_inputs(n.0 as int)[k2].node));
                assert(self.node_wf(n.0 as int));
                assert(self.node_inputs(n.0 as int)[k2].node == NodeIndex(c as usize));
            }
            if r@.contains(n) {
                let m = choose|m: int| 0 <= m < r@.len() && r@[m] == n;
                let c = r@[m].0 as int;
                let k2 = choose|k2: int|
                    0 <= k2 < self.node_inputs(n.0 as int).len() && (#[trigger] self.node_inputs(
                        n.0 as int,
                    )[k2]).node.0 == c;
                assert(self.node_wf(n.0 as int));
                assert(false);
            }
        }
        r
    }

    /// Successors projected to the same nesting level.  In this arena
    /// representation every edge stays within one level, so the projection
    /// is the successor set itself.
    pub fn flat_successors(&self, n: NodeIndex) -> (r: Vec<NodeIndex>)
        requires
            self.wf(),
            n.0 < self.node_count(),
        ensures
            forall|a: int, b: int| 0 <= a < b < r@.len() ==> r@[a] != r@[b],
            forall|m: int| 0 <= m < r@.len() ==> self.successors_set(n.0 as int).contains(
                (#[trigger] r@[m]).0 as int,
            ),
            forall|c: int|
                self.successors_set(n.0 as int).contains(c) ==> r@.contains(
                    NodeIndex(c as usize),
                ),
            !r@.contains(n),
    {
        self.successors(n)
    }

    /// The nodes reachable from `start` in at most `d` forward (or, with
    /// `forward == false`, backward) steps.
    pub open spec fn reach(self, start: Set<int>, d: nat, forward: bool) -> Set<int>
        decreases d,
    {
        if d == 0 {
            start
        } else {
            let prev = self.reach(start, (d - 1) as nat, forward);
            prev.union(
                Set::new(
                    |c: int|
                        exists|m: int|
                            #[trigger] prev.contains(m) && 0 <= m < self.node_count() && (if forward {
                                self.successors_set(m)
                            } else {
                                self.predecessors_set(m)
                            }).contains(c),
                ),
            )
        }
    }

    /// One full expansion round over the current node set.
    fn reach_round(&self, acc: &mut Vec<NodeIndex>, forward: bool) -> (grew: bool)
        requires
            self.wf(),
            forall|a: int, b: int| 0 <= a < b < old(acc)@.len() ==> old(acc)@[a] != old(acc)@[b],
            forall|m: int| 0 <= m < old(acc)@.len() ==> (#[trigger] old(acc)@[m]).0
                < self.node_count(),
        ensures
            forall|a: int, b: int|
                0 <= a < b < final(acc)@.len() ==> final(acc)@[a] != final(acc)@[b],
            forall|m: int| 0 <= m < final(acc)@.len() ==> (#[trigger] final(acc)@[m]).0
                < self.node_count(),
            vec_node_set(final(acc)@) =~= vec_node_set(old(acc)@).union(
                Set::new(
                    |c: int|
                        exists|m: int|
                            #[trigger] vec_node_set(old(acc)@).contains(m) && 0 <= m
                                < self.node_count() && (if forward {
                                self.successors_set(m)
                            } else {
                                self.predecessors_set(m)
                            }).contains(c),
                ),
            ),
            !grew ==> final(acc)@ == old(acc)@,
            grew ==> final(acc)@.len() > old(acc)@.len(),
    {
        let ghost base = acc@;
        let orig_len = acc.len();
        let mut i: usize = 0;
        while i < orig_len
            invariant
                self.wf(),
                orig_len <= acc@.len(),
                i <= orig_len,
                acc@.take(orig_len as int) == base,
                forall|a: int, b: int| 0 <= a < b < acc@.len() ==> acc@[a] != acc@[b],
                forall|m: int| 0 <= m < acc@.len() ==> (#[trigger] acc@[m]).0 < self.node_count(),
                // everything added so far is a neighbour of a processed node
                round_added_ok(*self, base, acc@, forward),
                // every neighbour of a processed node is present
                forall|t: int, c: int|
                    #![trigger base[t], acc@.contains(NodeIndex(c as usize))]
                    0 <= t < i && (if forward {
                        self.successors_set(base[t].0 as int)
                    } else {
                        self.predecessors_set(base[t].0 as int)
                    }).contains(c) ==> acc@.contains(NodeIndex(c as usize)),
            decreases orig_len - i,
        {
            let node = acc[i];
            proof {
                assert(acc@[i as int] == base[i as int]);
            }
            let nbrs = if forward {
                self.successors(node)
            } else {
                self.predecessors(node)
            };
            let mut q: usize = 0;
            while q < nbrs.len()
                invariant
                    self.wf(),
                    orig_len <= acc@.len(),
                    i < orig_len,
                    acc@.take(orig_len as int) == base,
                    node == base[i as int],
                    node.0 < self.node_count(),
                    q <= nbrs@.len(),
                    forall|m: int| 0 <= m < nbrs@.len() ==> (if forward {
                        self.successors_set(node.0 as int)
                    } else {
                        self.predecessors_set(node.0 as int)
                    }).contains((#[trigger] nbrs@[m]).0 as int) && nbrs@[m].0 < self.node_count(),
                    forall|c: int|
                        #![trigger nbrs@.contains(NodeIndex(c as usize))]
                        (if forward {
                            self.successors_set(node.0 as int)
                        } else {
                            self.predecessors_set(node.0 as int)
                        }).contains(c) ==> nbrs@.contains(NodeIndex(c as usize)),
                    forall|a: int, b: int| 0 <= a < b < acc@.len() ==> acc@[a] != acc@[b],
                    forall|m: int| 0 <= m < acc@.len() ==> (#[trigger] acc@[m]).0
                        < self.node_count(),
                    round_added_ok(*self, base, acc@, forward),
                    forall|t: int, c: int|
                        #![trigger base[t], acc@.contains(NodeIndex(c as usize))]
                        0 <= t < i && (if forward {
                            self.successors_set(base[t].0 as int)
                        } else {
                            self.predecessors_set(base[t].0 as int)
                        }).contains(c) ==> acc@.contains(NodeIndex(c as usize)),
                    forall|m: int| 0 <= m < q ==> acc@.contains(#[trigger] nbrs@[m]),
                decreases nbrs@.len() - q,
            {
                let c = nbrs[q];
                proof {
                    assert(vec_node_set(base).contains(node.0 as int)) by {
                        assert(base[i as int] == node);
                    }
                }
                let ghost pre_acc = acc@;
                push_unique(acc, c);
                proof {
                    assert forall|m: int|
                        #![trigger acc@[m]]
                        base.len() <= m < acc@.len() implies added_from(
                        *self,
                        base,
                        acc@[m],
                        forward,
                    ) by {
                        if m < pre_acc.len() {
                            assert(acc@[m] == pre_acc[m]);
                            assert(added_from(*self, base, pre_acc[m], forward));
                        } else {
                            assert(acc@[m] == c);
                            assert(vec_node_set(base).contains(node.0 as int));
                            assert((if forward {
                                self.successors_set(node.0 as int)
                            } else {
                                self.predecessors_set(node.0 as int)
                            }).contains(c.0 as int));
                            assert(added_from(*self, base, c, forward));
                        }
                    }
                    assert(round_added_ok(*self, base, acc@, forward));
                }
                q += 1;
            }
            proof {
                assert forall|c: int|
                    #![trigger acc@.contains(NodeIndex(c as usize))]
                    (if forward {
                        self.successors_set(base[i as int].0 as int)
                    } else {
                        self.predecessors_set(base[i as int].0 as int)
                    }).contains(c) implies acc@.contains(NodeIndex(c as usize)) by {
                    assert(nbrs@.contains(NodeIndex(c as usize)));
                    let m = choose|m: int| 0 <= m < nbrs@.len() && nbrs@[m] == NodeIndex(c as usize);
                    assert(acc@.contains(nbrs@[m]));
                }
            }
            i += 1;
        }
        proof {
            let target = vec_node_set(base).union(
                Set::new(
                    |c: int|
                        exists|m: int|
                            #[trigger] vec_node_set(base).contains(m) && 0 <= m < self.node_count()
                                && (if forward {
                                self.successors_set(m)
                            } else {
                                self.predecessors_set(m)
                            }).contains(c),
                ),
            );
            assert forall|c: int| vec_node_set(acc@).contains(c) implies target.contains(c) by {
                let m = choose|m: int| 0 <= m < acc@.len() && (#[trigger] acc@[m]).0 == c;
                if m < base.len() {
                    assert(base[m].0 == c);
                    assert(vec_node_set(base).contains(c));
                } else {
                    assert(added_from(*self, base, acc@[m], forward));
                }
            }
            assert forall|c: int| target.contains(c) implies vec_node_set(acc@).contains(c) by {
                if vec_node_set(base).contains(c) {
                    let m = choose|m: int| 0 <= m < base.len() && (#[trigger] base[m]).0 == c;
                    assert(acc@[m].0 == c);
                } else {
                    let m2 = choose|m2: int|
                        #[trigger] vec_node_set(base).contains(m2) && 0 <= m2 < self.node_count()
                            && (if forward {
                            self.successors_set(m2)
                        } else {
                            self.predecessors_set(m2)
                        }).contains(c);
                    let t = choose|t: int| 0 <= t < base.len() && (#[trigger] base[t]).0 == m2;
                    assert(acc@.contains(NodeIndex(c as usize)));
                    let m3 = choose|m3: int|
                        0 <= m3 < acc@.len() && acc@[m3] == NodeIndex(c as usize);
                    assert(acc@[m3].0 == c);
                }
            }
            assert(vec_node_set(acc@) =~= target);
        }
        acc.len() > orig_len
    }

    /// The nodes reachable from `n` by any number of forward steps.
    pub fn forward_reachable(&self, n: NodeIndex) -> (r: Vec<NodeIndex>)
        requires
            self.wf(),
            n.0 < self.node_count(),
        ensures
            forall|a: int, b: int| 0 <= a < b < r@.len() ==> r@[a] != r@[b],
            vec_node_set(r@) =~= self.reach(
                Set::empty().insert(n.0 as int),
                usize::MAX as nat,
                true,
            ),
    {
        self.forward_reachable_n(n, usize::MAX)
    }

    /// The nodes reachable from `n` by any number of backward steps.
    pub fn backward_reachable(&self, n: NodeIndex) -> (r: Vec<NodeIndex>)
        requires
            self.wf(),
            n.0 < self.node_count(),
        ensures
            forall|a: int, b: int| 0 <= a < b < r@.len() ==> r@[a] != r@[b],
            vec_node_set(r@) =~= self.reach(
                Set::empty().insert(n.0 as int),
                usize::MAX as nat,
                false,
            ),
    {
        self.backward_reachable_n(n, usize::MAX)
    }

    /// The causal slice around `n`: nodes on a path through it, at any
    /// distance.
    pub fn bidirectional_reachable(&self, n: NodeIndex) -> (r: Vec<NodeIndex>)
        requires
            self.wf(),
            n.0 < self.node_count(),
        ensures
            forall|a: int, b: int| 0 <= a < b < r@.len() ==> r@[a] != r@[b],
            vec_node_set(r@) =~= self.reach(
                Set::empty().insert(n.0 as int),
                usize::MAX as nat,
                true,
            ).intersect(self.reach(Set::empty().insert(n.0 as int), usize::MAX as nat, false)),
    {
        self.bidirectional_reachable_n(n, usize::MAX)
    }

    /// The nodes reachable from `n` by at most `depth_limit` forward steps.
    pub fn forward_reachable_n(&self, n: NodeIndex, depth_limit: usize) -> (r: Vec<NodeIndex>)
        requires
            self.wf(),
            n.0 < self.node_count(),
        ensures
            forall|a: int, b: int| 0 <= a < b < r@.len() ==> r@[a] != r@[b],
            vec_node_set(r@) =~= self.reach(
                Set::empty().insert(n.0 as int),
                depth_limit as nat,
                true,
            ),
    {
        self.reachable_n(n, depth_limit, true)
    }

    /// The nodes reachable from `n` by at most `depth_limit` backward steps.
    pub fn backward_reachable_n(&self, n: NodeIndex, depth_limit: usize) -> (r: Vec<NodeIndex>)
        requires
            self.wf(),
            n.0 < self.node_count(),
        ensures
            forall|a: int, b: int| 0 <= a < b < r@.len() ==> r@[a] != r@[b],
            vec_node_set(r@) =~= self.reach(
                Set::empty().insert(n.0 as int),
                depth_limit as nat,
                false,
            ),
    {
        self.reachable_n(n, depth_limit, false)
    }

    fn reachable_n(&self, n: NodeIndex, depth_limit: usize, forward: bool) -> (r: Vec<NodeIndex>)
        requires
            self.wf(),
            n.0 < self.node_count(),
        ensures
            forall|a: int, b: int| 0 <= a < b < r@.len() ==> r@[a] != r@[b],
            forall|m: int| 0 <= m < r@.len() ==> (#[trigger] r@[m]).0 < self.node_count(),
            vec_node_set(r@) =~= self.reach(
                Set::empty().insert(n.0 as int),
                depth_limit as nat,
                forward,
            ),
    {
        let mut starts: Vec<NodeIndex> = Vec::new();
        starts.push(n);
        let r = self.reachable_from(&starts, depth_limit, forward);
        proof {
            assert(vec_node_set(starts@) =~= Set::empty().insert(n.0 as int)) by {
                assert(starts@[0] == n);
                assert forall|c: int| Set::empty().insert(n.0 as int).contains(c)
                    implies vec_node_set(starts@).contains(c) by {
                    assert(starts@[0].0 == c);
                }
            }
        }
        r
    }

    /// The nodes reachable from any of `starts` in at most `depth_limit`
    /// steps in the given direction.
    pub fn reachable_from(&self, starts: &Vec<NodeIndex>, depth_limit: usize, forward: bool) -> (r: Vec<NodeIndex>)
        requires
            self.wf(),
            forall|m: int| 0 <= m < starts@.len() ==> (#[trigger] starts@[m]).0
                < self.node_count(),
        ensures
            forall|a: int, b: int| 0 <= a < b < r@.len() ==> r@[a] != r@[b],
            forall|m: int| 0 <= m < r@.len() ==> (#[trigger] r@[m]).0 < self.node_count(),
            vec_node_set(r@) =~= self.reach(vec_node_set(starts@), depth_limit as nat, forward),
    {
        let ghost start = vec_node_set(starts@);
        let mut acc: Vec<NodeIndex> = Vec::new();
        let mut si: usize = 0;
        while si < starts.len()
            invariant
                self.wf(),
                forall|m: int| 0 <= m < starts@.len() ==> (#[trigger] starts@[m]).0
                    < self.node_count(),
                si <= starts@.len(),
                forall|a: int, b: int| 0 <= a < b < acc@.len() ==> acc@[a] != acc@[b],
                forall|m: int| 0 <= m < acc@.len() ==> (#[trigger] acc@[m]).0
                    < self.node_count(),
                forall|m: int| 0 <= m < acc@.len() ==> starts@.contains(#[trigger] acc@[m]),
                forall|m: int| 0 <= m < si ==> acc@.contains(#[trigger] starts@[m]),
            decreases starts@.len() - si,
        {
            push_unique(&mut acc, starts[si]);
            si += 1;
        }
        proof {
            assert(vec_node_set(acc@) =~= start) by {
                assert forall|c: int| vec_node_set(acc@).contains(c) implies start.contains(c) by {
                    let m = choose|m: int| 0 <= m < acc@.len() && (#[trigger] acc@[m]).0 == c;
                    assert(starts@.contains(acc@[m]));
                    let m2 = choose|m2: int| 0 <= m2 < starts@.len() && starts@[m2] == acc@[m];
                    assert(starts@[m2].0 == c);
                }
                assert forall|c: int| start.contains(c) implies vec_node_set(acc@).contains(c) by {
                    let m = choose|m: int| 0 <= m < starts@.len() && (#[trigger] starts@[m]).0 == c;
                    assert(acc@.contains(starts@[m]));
                    let m2 = choose|m2: int| 0 <= m2 < acc@.len() && acc@[m2] == starts@[m];
                    assert(acc@[m2].0 == c);
                }
            }
        }
        let mut d: usize = 0;
        while d < depth_limit
            invariant
                self.wf(),
                start == vec_node_set(starts@),
                d <= depth_limit,
                forall|a: int, b: int| 0 <= a < b < acc@.len() ==> acc@[a] != acc@[b],
                forall|m: int| 0 <= m < acc@.len() ==> (#[trigger] acc@[m]).0 < self.node_count(),
                vec_node_set(acc@) =~= self.reach(start, d as nat, forward),
            decreases depth_limit - d,
        {
            let ghost pre = acc@;
            let grew = self.reach_round(&mut acc, forward);
            if !grew {
                proof {
                    let prev = self.reach(start, d as nat, forward);
                    assert(vec_node_set(pre) =~= prev);
                    assert(vec_node_set(acc@) =~= prev);
                    lemma_reach_step_super(*self, start, d as nat, forward);
                    assert(self.reach(start, (d + 1) as nat, forward) =~= prev) by {
                        assert forall|c: int|
                            self.reach(start, (d + 1) as nat, forward).contains(c)
                            implies prev.contains(c) by {
                            if !prev.contains(c) {
                                let m2 = choose|m2: int|
                                    #[trigger] prev.contains(m2) && 0 <= m2 < self.node_count()
                                        && (if forward {
                                        self.successors_set(m2)
                                    } else {
                                        self.predecessors_set(m2)
                                    }).contains(c);
                                assert(vec_node_set(pre).contains(m2));
                                assert(vec_node_set(acc@).contains(c));
                                assert(false);
                            }
                        }
                    }
                    lemma_reach_fixpoint(*self, start, d as nat, depth_limit as nat, forward);
                    assert(vec_node_set(acc@) =~= self.reach(start, depth_limit as nat, forward));
                }
                return acc;
            }
            d += 1;
        }
        acc
    }

    /// The intersection of the forward and backward reachable sets from
    /// `n` with the same depth limit: the causal slice around `n`.  With a
    /// zero depth limit it is exactly `n` itself.
    pub fn bidirectional_reachable_n(&self, n: NodeIndex, depth_limit: usize) -> (r: Vec<
        NodeIndex,
    >)
        requires
            self.wf(),
            n.0 < self.node_count(),
        ensures
            forall|a: int, b: int| 0 <= a < b < r@.len() ==> r@[a] != r@[b],
            vec_node_set(r@) =~= self.reach(
                Set::empty().insert(n.0 as int),
                depth_limit as nat,
                true,
            ).intersect(self.reach(Set::empty().insert(n.0 as int), depth_limit as nat, false)),
            depth_limit == 0 ==> r@ == seq![n],
    {
        let fwd = self.forward_reachable_n(n, depth_limit);
        let bwd = self.backward_reachable_n(n, depth_limit);
        let mut r: Vec<NodeIndex> = Vec::new();
        let mut i: usize = 0;
        while i < fwd.len()
            invariant
                i <= fwd@.len(),
                forall|a: int, b: int| 0 <= a < b < fwd@.len() ==> fwd@[a] != fwd@[b],
                forall|a: int, b: int| 0 <= a < b < r@.len() ==> r@[a] != r@[b],
                forall|m: int|
                    0 <= m < r@.len() ==> fwd@.contains(#[trigger] r@[m]) && bwd@.contains(r@[m]),
                forall|m: int|
                    0 <= m < i && bwd@.contains(#[trigger] fwd@[m]) ==> r@.contains(fwd@[m]),
            decreases fwd@.len() - i,
        {
            let x = fwd[i];
            if contains_node(&bwd, x) {
                push_unique(&mut r, x);
            }
            i += 1;
        }
        proof {
            let fset = self.reach(Set::empty().insert(n.0 as int), depth_limit as nat, true);
            let bset = self.reach(Set::empty().insert(n.0 as int), depth_limit as nat, false);
            assert forall|c: int| vec_node_set(r@).contains(c) implies fset.intersect(
                bset,
            ).contains(c) by {
                let m = choose|m: int| 0 <= m < r@.len() && (#[trigger] r@[m]).0 == c;
                assert(fwd@.contains(r@[m]) && bwd@.contains(r@[m]));
                let mf = choose|mf: int| 0 <= mf < fwd@.len() && fwd@[mf] == r@[m];
                let mb = choose|mb: int| 0 <= mb < bwd@.len() && bwd@[mb] == r@[m];
                assert(vec_node_set(fwd@).contains(c) && vec_node_set(bwd@).contains(c));
            }
            assert forall|c: int| fset.intersect(bset).contains(c) implies vec_node_set(
                r@,
            ).contains(c) by {
                assert(vec_node_set(fwd@).contains(c) && vec_node_set(bwd@).contains(c));
                let mf = choose|mf: int| 0 <= mf < fwd@.len() && (#[trigger] fwd@[mf]).0 == c;
                let mb = choose|mb: int| 0 <= mb < bwd@.len() && (#[trigger] bwd@[mb]).0 == c;
                assert(fwd@[mf] == NodeIndex(c as usize) && bwd@[mb] == NodeIndex(c as usize));
                assert(bwd@.contains(fwd@[mf]));
                assert(r@.contains(fwd@[mf]));
                let m = choose|m: int| 0 <= m < r@.len() && r@[m] == NodeIndex(c as usize);
                assert(r@[m].0 == c);
            }
            assert(vec_node_set(r@) =~= fset.intersect(bset));
            if depth_limit == 0 {
                assert(vec_node_set(r@) =~= Set::empty().insert(n.0 as int));
                assert(r@.len() >= 1) by {
                    if r@.len() == 0 {
                        assert(!vec_node_set(r@).contains(n.0 as int));
                    }
                }
                assert(r@.len() <= 1) by {
                    if r@.len() >= 2 {
                        assert(vec_node_set(r@).contains(r@[0].0 as int));
                        assert(vec_node_set(r@).contains(r@[1].0 as int));
                        assert(r@[0].0 == n.0 && r@[1].0 == n.0);
                    }
                }
                assert(vec_node_set(r@).contains(n.0 as int));
                let m = choose|m: int| 0 <= m < r@.len() && (#[trigger] r@[m]).0 == n.0 as int;
                assert(r@ =~= seq![n]);
            }
        }
        r
    }
}


/// `x` is a neighbour (in the given direction) of some node of `base`.
pub open spec fn added_from<E>(g: HyperGraph<E>, base: Seq<NodeIndex>, x: NodeIndex, forward: bool) -> bool {
    exists|m2: int|
        #[trigger] vec_node_set(base).contains(m2) && 0 <= m2 < g.node_count() && (if forward {
            g.successors_set(m2)
        } else {
            g.predecessors_set(m2)
        }).contains(x.0 as int)
}

/// Every node appended beyond `base` is a neighbour of a node of `base`.
pub open spec fn round_added_ok<E>(
    g: HyperGraph<E>,
    base: Seq<NodeIndex>,
    acc: Seq<NodeIndex>,
    forward: bool,
) -> bool {
    forall|m: int|
        #![trigger acc[m]]
        base.len() <= m < acc.len() ==> added_from(g, base, acc[m], forward)
}



/// The neighbour set in the traversal's direction.
pub open spec fn nbr_set<E>(g: HyperGraph<E>, forward: bool, n: int) -> Set<int> {
    if forward {
        g.successors_set(n)
    } else {
        g.predecessors_set(n)
    }
}

/// The frontier after yielding entry `k` of `pre`: the entries after `k`,
/// followed (when the depth can still grow) by one entry, a step deeper,
/// for each not-yet-seen neighbour of the yielded node, and nothing else.
pub open spec fn yields_frontier<E>(
    g: HyperGraph<E>,
    forward: bool,
    pre: Seq<(usize, NodeIndex)>,
    k: int,
    seen: Seq<NodeIndex>,
    post: Seq<(usize, NodeIndex)>,
) -> bool {
    let d = pre[k].0;
    let x = pre[k].1;
    let kept = pre.skip(k + 1);
    &&& post.len() >= kept.len()
    &&& post.take(kept.len() as int) == kept
    &&& forall|m: int|
        kept.len() <= m < post.len() ==> {
            let e = #[trigger] post[m];
            &&& e.0 == d + 1
            &&& nbr_set(g, forward, x.0 as int).contains(e.1.0 as int)
            &&& !seen.push(x).contains(e.1)
        }
    &&& (d < usize::MAX ==> forall|c: int|
        nbr_set(g, forward, x.0 as int).contains(c) && !seen.push(x).contains(
            NodeIndex(c as usize),
        ) ==> exists|m: int|
            kept.len() <= m < post.len() && (#[trigger] post[m]).1 == NodeIndex(c as usize))
}

/// A restartable breadth-first traversal: each frontier entry carries its
/// distance from the start set; iteration stalls, without losing the
/// frontier, once the next entry exceeds the depth limit, and resumes
/// after `bump_depth_limit`/`increase_depth_limit`.
#[derive(Debug)]
pub struct NReachable {
    depth_limit: usize,
    seen: Vec<NodeIndex>,
    frontier: Vec<(usize, NodeIndex)>,
    forward: bool,
}

impl NReachable {
    /// The nodes already yielded, in order.
    pub closed spec fn seen_view(self) -> Seq<NodeIndex> {
        self.seen@
    }

    /// The pending frontier entries.
    pub closed spec fn frontier_view(self) -> Seq<(usize, NodeIndex)> {
        self.frontier@
    }

    /// The current depth limit.
    pub closed spec fn limit_view(self) -> usize {
        self.depth_limit
    }

    /// Whether the traversal follows successors.
    pub closed spec fn forward_view(self) -> bool {
        self.forward
    }

    /// All recorded nodes exist in `g`.
    pub open spec fn wf<E>(self, g: HyperGraph<E>) -> bool {
        &&& forall|m: int| 0 <= m < self.seen_view().len() ==> (#[trigger] self.seen_view()[m]).0
            < g.node_count()
        &&& forall|m: int|
            0 <= m < self.frontier_view().len() ==> (#[trigger] self.frontier_view()[m]).1.0
                < g.node_count()
    }

    /// A forward traversal from the given start nodes, unlimited depth.
    pub fn forward_from(nodes: Vec<NodeIndex>) -> (r: NReachable)
        ensures
            r.seen_view().len() == 0,
            r.frontier_view().len() == nodes@.len(),
            forall|m: int| 0 <= m < nodes@.len() ==> #[trigger] r.frontier_view()[m] == (0usize, nodes@[m]),
    {
        NReachable::forward_from_n(nodes, usize::MAX)
    }

    /// A forward traversal from the given start nodes with a depth limit.
    pub fn forward_from_n(nodes: Vec<NodeIndex>, depth_limit: usize) -> (r: NReachable)
        ensures
            r.seen_view().len() == 0,
            r.limit_view() == depth_limit,
            r.frontier_view().len() == nodes@.len(),
            forall|m: int| 0 <= m < nodes@.len() ==> #[trigger] r.frontier_view()[m] == (0usize, nodes@[m]),
    {
        NReachable { depth_limit, seen: Vec::new(), frontier: seed_frontier(nodes), forward: true }
    }

    /// A backward traversal from the given start nodes, unlimited depth.
    pub fn backward_from(nodes: Vec<NodeIndex>) -> (r: NReachable)
        ensures
            r.seen_view().len() == 0,
            r.frontier_view().len() == nodes@.len(),
            forall|m: int| 0 <= m < nodes@.len() ==> #[trigger] r.frontier_view()[m] == (0usize, nodes@[m]),
    {
        NReachable::backward_from_n(nodes, usize::MAX)
    }

    /// A backward traversal from the given start nodes with a depth limit.
    pub fn backward_from_n(nodes: Vec<NodeIndex>, depth_limit: usize) -> (r: NReachable)
        ensures
            r.seen_view().len() == 0,
            r.limit_view() == depth_limit,
            r.frontier_view().len() == nodes@.len(),
            forall|m: int| 0 <= m < nodes@.len() ==> #[trigger] r.frontier_view()[m] == (0usize, nodes@[m]),
    {
        NReachable { depth_limit, seen: Vec::new(), frontier: seed_frontier(nodes), forward: false }
    }

    /// Raises the depth limit by one, so a stalled traversal can resume.
    pub fn bump_depth_limit(&mut self)
        requires
            old(self).limit_view() < usize::MAX,
        ensures
            final(self).limit_view() == old(self).limit_view() + 1,
            final(self).seen_view() == old(self).seen_view(),
            final(self).frontier_view() == old(self).frontier_view(),
            final(self).forward_view() == old(self).forward_view(),
    {
        self.increase_depth_limit(1);
    }

    /// Raises the depth limit by `n`.
    pub fn increase_depth_limit(&mut self, n: usize)
        requires
            old(self).limit_view() + n <= usize::MAX,
        ensures
            final(self).limit_view() == old(self).limit_view() + n,
            final(self).seen_view() == old(self).seen_view(),
            final(self).frontier_view() == old(self).frontier_view(),
            final(self).forward_view() == old(self).forward_view(),
    {
        self.depth_limit = self.depth_limit + n;
    }

    /// The next node of the traversal, or `None` once every node within
    /// the current depth limit has been yielded.  Already-yielded frontier
    /// entries are discarded; on an empty frontier, or when the first
    /// pending entry lies beyond the depth limit, the traversal stalls with
    /// the entry kept in place, so that raising the limit resumes it.  A
    /// yielded node was within the limit, was not yielded before, is marked
    /// seen, and its not-yet-seen neighbours join the frontier one step
    /// deeper.
    pub fn next<E>(&mut self, g: &HyperGraph<E>) -> (r: Option<NodeIndex>)
        requires
            g.wf(),
            old(self).wf(*g),
        ensures
            final(self).wf(*g),
            final(self).limit_view() == old(self).limit_view(),
            final(self).forward_view() == old(self).forward_view(),
            match r {
                Some(x) => {
                    &&& x.0 < g.node_count()
                    &&& !old(self).seen_view().contains(x)
                    &&& final(self).seen_view() == old(self).seen_view().push(x)
                    &&& exists|k: int|
                        {
                            &&& 0 <= k < old(self).frontier_view().len()
                            &&& (#[trigger] old(self).frontier_view()[k]).1 == x
                            &&& old(self).frontier_view()[k].0 <= old(self).limit_view()
                            &&& forall|j: int|
                                0 <= j < k ==> old(self).seen_view().contains(
                                    (#[trigger] old(self).frontier_view()[j]).1,
                                )
                            &&& yields_frontier(
                                *g,
                                old(self).forward_view(),
                                old(self).frontier_view(),
                                k,
                                old(self).seen_view(),
                                final(self).frontier_view(),
                            )
                        }
                },
                None => {
                    &&& final(self).seen_view() == old(self).seen_view()
                    &&& exists|k: int|
                        {
                            &&& 0 <= k <= old(self).frontier_view().len()
                            &&& final(self).frontier_view() == old(self).frontier_view().skip(k)
                            &&& forall|j: int|
                                0 <= j < k ==> old(self).seen_view().contains(
                                    (#[trigger] old(self).frontier_view()[j]).1,
                                )
                        }
                    &&& (final(self).frontier_view().len() == 0
                        || final(self).frontier_view()[0].0 > old(self).limit_view())
                },
            },
    {
        let ghost orig = *self;
        let ghost mut k: int = 0;
        loop
            invariant
                g.wf(),
                self.wf(*g),
                orig == *old(self),
                self.depth_limit == orig.depth_limit,
                self.forward == orig.forward,
                self.seen@ == orig.seen@,
                orig.wf(*g),
                0 <= k <= orig.frontier_view().len(),
                self.frontier_view() == orig.frontier_view().skip(k),
                forall|j: int|
                    0 <= j < k ==> orig.seen_view().contains(
                        (#[trigger] orig.frontier_view()[j]).1,
                    ),
            decreases self.frontier@.len(),
        {
            if self.frontier.len() == 0 {
                proof {
                    assert(0 <= k <= orig.frontier_view().len()
                        && self.frontier_view() == orig.frontier_view().skip(k) && forall|j: int|
                        0 <= j < k ==> orig.seen_view().contains(
                            (#[trigger] orig.frontier_view()[j]).1,
                        ));
                }
                return None;
            }
            let d = self.frontier[0].0;
            let node = self.frontier[0].1;
            proof {
                assert((d, node) == orig.frontier_view()[k]);
            }
            if d > self.depth_limit {
                // stall: the entry stays at the front of the frontier
                proof {
                    assert(0 <= k <= orig.frontier_view().len()
                        && self.frontier_view() == orig.frontier_view().skip(k) && forall|j: int|
                        0 <= j < k ==> orig.seen_view().contains(
                            (#[trigger] orig.frontier_view()[j]).1,
                        ));
                }
                return None;
            }
            let already = contains_node(&self.seen, node);
            let ghost pre_self = *self;
            let _ = self.frontier.remove(0);
            proof {
                assert forall|m: int|
                    0 <= m < self.frontier_view().len() implies (#[trigger] self.frontier_view()[m]).1.0
                    < g.node_count() by {
                    assert(self.frontier@[m] == pre_self.frontier@[m + 1]);
                    assert(pre_self.frontier_view()[m + 1].1.0 < g.node_count());
                }
                assert forall|m: int|
                    0 <= m < self.seen_view().len() implies (#[trigger] self.seen_view()[m]).0
                    < g.node_count() by {
                    assert(self.seen@[m] == pre_self.seen@[m]);
                    assert(pre_self.seen_view()[m].0 < g.node_count());
                }
                assert(self.wf(*g));
                assert(self.frontier_view() =~= orig.frontier_view().skip(k + 1));
            }
            if already {
                proof {
                    k = k + 1;
                }
            } else {
                let ghost mid_self = *self;
                self.seen.push(node);
                proof {
                    assert forall|m: int|
                        0 <= m < self.seen_view().len() implies (#[trigger] self.seen_view()[m]).0
                        < g.node_count() by {
                        if m < self.seen@.len() - 1 {
                            assert(self.seen@[m] == mid_self.seen@[m]);
                            assert(mid_self.seen_view()[m].0 < g.node_count());
                        } else {
                            assert(self.seen@[m] == node);
                        }
                    }
                    assert forall|m: int|
                        0 <= m < self.frontier_view().len() implies (#[trigger] self.frontier_view()[m]).1.0
                        < g.node_count() by {
                        assert(self.frontier@[m] == mid_self.frontier@[m]);
                        assert(mid_self.frontier_view()[m].1.0 < g.node_count());
                    }
                    assert(self.wf(*g));
                }
                let nbrs = if self.forward {
                    g.successors(node)
                } else {
                    g.predecessors(node)
                };
                let ghost base = self.frontier@;
                let mut q: usize = 0;
                while q < nbrs.len()
                    invariant
                        g.wf(),
                        self.wf(*g),
                        orig == *old(self),
                        q <= nbrs@.len(),
                        d <= self.depth_limit,
                        node.0 < g.node_count(),
                        self.depth_limit == orig.depth_limit,
                        self.forward == orig.forward,
                        self.seen@ == orig.seen@.push(node),
                        forall|m: int| 0 <= m < nbrs@.len() ==> nbr_set(
                            *g,
                            orig.forward_view(),
                            node.0 as int,
                        ).contains((#[trigger] nbrs@[m]).0 as int) && nbrs@[m].0 < g.node_count(),
                        forall|c: int|
                            nbr_set(*g, orig.forward_view(), node.0 as int).contains(c)
                                ==> #[trigger] nbrs@.contains(NodeIndex(c as usize)),
                        self.frontier_view().len() >= base.len(),
                        self.frontier_view().take(base.len() as int) == base,
                        forall|m: int|
                            base.len() <= m < self.frontier_view().len() ==> {
                                let e = #[trigger] self.frontier_view()[m];
                                &&& e.0 == d + 1
                                &&& nbr_set(*g, orig.forward_view(), node.0 as int).contains(
                                    e.1.0 as int,
                                )
                                &&& !self.seen_view().contains(e.1)
                            },
                        d < usize::MAX ==> forall|m: int|
                            0 <= m < q && !self.seen_view().contains(#[trigger] nbrs@[m])
                                ==> exists|m2: int|
                                base.len() <= m2 < self.frontier_view().len()
                                    && (#[trigger] self.frontier_view()[m2]).1 == nbrs@[m],
                    decreases nbrs@.len() - q,
                {
                    let c = nbrs[q];
                    if !contains_node(&self.seen, c) {
                        if d < usize::MAX {
                            let ghost pre2 = *self;
                            self.frontier.push((d + 1, c));
                            proof {
                                assert(self.frontier@.last() == ((d + 1) as usize, c));
                                assert forall|m: int|
                                    0 <= m < self.frontier_view().len() implies (
                                #[trigger] self.frontier_view()[m]).1.0 < g.node_count() by {
                                    if m < self.frontier@.len() - 1 {
                                        assert(self.frontier@[m] == pre2.frontier@[m]);
                                        assert(pre2.frontier_view()[m].1.0 < g.node_count());
                                    } else {
                                        assert(self.frontier@[m] == ((d + 1) as usize, c));
                                    }
                                }
                                assert forall|m: int|
                                    0 <= m < self.seen_view().len() implies (
                                #[trigger] self.seen_view()[m]).0 < g.node_count() by {
                                    assert(self.seen@[m] == pre2.seen@[m]);
                                    assert(pre2.seen_view()[m].0 < g.node_count());
                                }
                                assert(self.wf(*g));
                                assert(self.frontier_view().take(base.len() as int)
                                    =~= pre2.frontier_view().take(base.len() as int));
                                assert forall|m: int|
                                    0 <= m < q + 1 && !self.seen_view().contains(
                                        #[trigger] nbrs@[m],
                                    ) implies exists|m2: int|
                                    base.len() <= m2 < self.frontier_view().len()
                                        && (#[trigger] self.frontier_view()[m2]).1 == nbrs@[m] by {
                                    if m < q {
                                        let m0 = choose|m0: int|
                                            base.len() <= m0 < pre2.frontier_view().len() && (
                                            #[trigger] pre2.frontier_view()[m0]).1 == nbrs@[m];
                                        assert(self.frontier_view()[m0].1 == nbrs@[m]);
                                    } else {
                                        assert(self.frontier_view()[self.frontier_view().len()
                                            - 1].1 == nbrs@[m]);
                                    }
                                }
                            }
                        }
                    }
                    q += 1;
                }
                proof {
                    // depth never reaches the integer limit in a finite
                    // graph traversal; the completeness witness below needs
                    // the appended entries
                    assert(yields_frontier(
                        *g,
                        orig.forward_view(),
                        orig.frontier_view(),
                        k,
                        orig.seen_view(),
                        self.frontier_view(),
                    )) by {
                        assert(orig.frontier_view().skip(k + 1) == base);
                        if d < usize::MAX {
                            assert forall|c: int|
                                nbr_set(*g, orig.forward_view(), node.0 as int).contains(c)
                                    && !orig.seen_view().push(node).contains(NodeIndex(c as usize))
                                implies exists|m2: int|
                                base.len() <= m2 < self.frontier_view().len()
                                    && (#[trigger] self.frontier_view()[m2]).1 == NodeIndex(
                                    c as usize,
                                ) by {
                                assert(nbrs@.contains(NodeIndex(c as usize)));
                                let m = choose|m: int|
                                    0 <= m < nbrs@.len() && nbrs@[m] == NodeIndex(c as usize);
                                assert(!self.seen_view().contains(nbrs@[m]));
                            }
                        }
                    }
                }
                return Some(node);
            }
        }
    }

}

/// Seeds a frontier at distance zero.
fn seed_frontier(nodes: Vec<NodeIndex>) -> (r: Vec<(usize, NodeIndex)>)
    ensures
        r@.len() == nodes@.len(),
        forall|m: int| 0 <= m < nodes@.len() ==> #[trigger] r@[m] == (0usize, nodes@[m]),
{
    let mut r: Vec<(usize, NodeIndex)> = Vec::new();
    let mut i: usize = 0;
    while i < nodes.len()
        invariant
            i <= nodes@.len(),
            r@.len() == i,
            forall|m: int| 0 <= m < i ==> #[trigger] r@[m] == (0usize, nodes@[m]),
        decreases nodes@.len() - i,
    {
        r.push((0, nodes[i]));
        i += 1;
    }
    r
}

/// The intersection of the forward and backward reachable sets from the
/// given start nodes with one depth limit.
pub fn bidirectional_from_n<E>(g: &HyperGraph<E>, nodes: &Vec<NodeIndex>, depth_limit: usize) -> (r: Vec<NodeIndex>)
    requires
        g.wf(),
        forall|m: int| 0 <= m < nodes@.len() ==> (#[trigger] nodes@[m]).0 < g.node_count(),
    ensures
        forall|a: int, b: int| 0 <= a < b < r@.len() ==> r@[a] != r@[b],
        vec_node_set(r@) =~= g.reach(vec_node_set(nodes@), depth_limit as nat, true).intersect(
            g.reach(vec_node_set(nodes@), depth_limit as nat, false),
        ),
{
    let fwd = g.reachable_from(nodes, depth_limit, true);
    let bwd = g.reachable_from(nodes, depth_limit, false);
    let mut r: Vec<NodeIndex> = Vec::new();
    let mut i: usize = 0;
    while i < fwd.len()
        invariant
            i <= fwd@.len(),
            forall|a: int, b: int| 0 <= a < b < fwd@.len() ==> fwd@[a] != fwd@[b],
            forall|a: int, b: int| 0 <= a < b < r@.len() ==> r@[a] != r@[b],
            forall|m: int|
                0 <= m < r@.len() ==> fwd@.contains(#[trigger] r@[m]) && bwd@.contains(r@[m]),
            forall|m: int|
                0 <= m < i && bwd@.contains(#[trigger] fwd@[m]) ==> r@.contains(fwd@[m]),
        decreases fwd@.len() - i,
    {
        let x = fwd[i];
        if contains_node(&bwd, x) {
            push_unique(&mut r, x);
        }
        i += 1;
    }
    proof {
        let fset = g.reach(vec_node_set(nodes@), depth_limit as nat, true);
        let bset = g.reach(vec_node_set(nodes@), depth_limit as nat, false);
        assert forall|c: int| vec_node_set(r@).contains(c) implies fset.intersect(bset).contains(
            c,
        ) by {
            let m = choose|m: int| 0 <= m < r@.len() && (#[trigger] r@[m]).0 == c;
            assert(fwd@.contains(r@[m]) && bwd@.contains(r@[m]));
            let mf = choose|mf: int| 0 <= mf < fwd@.len() && fwd@[mf] == r@[m];
            let mb = choose|mb: int| 0 <= mb < bwd@.len() && bwd@[mb] == r@[m];
            assert(vec_node_set(fwd@).contains(c) && vec_node_set(bwd@).contains(c));
        }
        assert forall|c: int| fset.intersect(bset).contains(c) implies vec_node_set(r@).contains(
            c,
        ) by {
            assert(vec_node_set(fwd@).contains(c) && vec_node_set(bwd@).contains(c));
            let mf = choose|mf: int| 0 <= mf < fwd@.len() && (#[trigger] fwd@[mf]).0 == c;
            let mb = choose|mb: int| 0 <= mb < bwd@.len() && (#[trigger] bwd@[mb]).0 == c;
            assert(fwd@[mf] == NodeIndex(c as usize) && bwd@[mb] == NodeIndex(c as usize));
            assert(bwd@.contains(fwd@[mf]));
            assert(r@.contains(fwd@[mf]));
            let m = choose|m: int| 0 <= m < r@.len() && r@[m] == NodeIndex(c as usize);
            assert(r@[m].0 == c);
        }
    }
    r
}

/// The set of node indices a vector denotes.
pub open spec fn vec_node_set(s: Seq<NodeIndex>) -> Set<int> {
    Set::new(|c: int| exists|m: int| 0 <= m < s.len() && (#[trigger] s[m]).0 == c)
}


/// One more round can only grow the reachable set.
proof fn lemma_reach_step_super<E>(g: HyperGraph<E>, start: Set<int>, d: nat, forward: bool)
    ensures
        forall|c: int|
            g.reach(start, d, forward).contains(c) ==> #[trigger] g.reach(
                start,
                (d + 1) as nat,
                forward,
            ).contains(c),
{
    assert forall|c: int| g.reach(start, d, forward).contains(c) implies #[trigger] g.reach(
        start,
        (d + 1) as nat,
        forward,
    ).contains(c) by {
        assert(g.reach(start, (d + 1) as nat, forward) == g.reach(start, d, forward).union(
            Set::new(
                |c2: int|
                    exists|m: int|
                        #[trigger] g.reach(start, d, forward).contains(m) && 0 <= m
                            < g.node_count() && (if forward {
                            g.successors_set(m)
                        } else {
                            g.predecessors_set(m)
                        }).contains(c2),
            ),
        ));
    }
}

/// Once an expansion round adds nothing, every deeper limit yields the
/// same reachable set.
proof fn lemma_reach_fixpoint<E>(
    g: HyperGraph<E>,
    start: Set<int>,
    d: nat,
    d2: nat,
    forward: bool,
)
    requires
        g.reach(start, (d + 1) as nat, forward) =~= g.reach(start, d, forward),
        d <= d2,
    ensures
        g.reach(start, d2, forward) =~= g.reach(start, d, forward),
    decreases d2 - d,
{
    if d2 > d {
        if d2 - 1 > d {
            lemma_reach_fixpoint(g, start, d, (d2 - 1) as nat, forward);
        }
        assert(g.reach(start, ((d2 - 1) + 1) as nat, forward) =~= g.reach(
            start,
            (d2 - 1) as nat,
            forward,
        ));
        assert(g.reach(start, d2, forward) =~= g.reach(start, (d2 - 1) as nat, forward));
    }
}

/// Appends `x` unless it is already present.
fn push_unique(v: &mut Vec<NodeIndex>, x: NodeIndex)
    requires
        forall|a: int, b: int| 0 <= a < b < old(v)@.len() ==> old(v)@[a] != old(v)@[b],
    ensures
        forall|a: int, b: int| 0 <= a < b < final(v)@.len() ==> final(v)@[a] != final(v)@[b],
        final(v)@.len() >= old(v)@.len(),
        forall|m: int| 0 <= m < old(v)@.len() ==> final(v)@[m] == old(v)@[m],
        final(v)@.contains(x),
        final(v)@ == old(v)@ || final(v)@ == old(v)@.push(x),
        old(v)@.contains(x) ==> final(v)@ == old(v)@,
{
    let mut i: usize = 0;
    while i < v.len()
        invariant
            v@ == old(v)@,
            forall|a: int, b: int| 0 <= a < b < v@.len() ==> v@[a] != v@[b],
            i <= v@.len(),
            forall|q: int| 0 <= q < i ==> v@[q] != x,
        decreases v@.len() - i,
    {
        if v[i].0 == x.0 {
            proof {
                assert(v@[i as int] == x);
                assert(v@.contains(x));
            }
            return ;
        }
        i += 1;
    }
    proof {
        if v@.contains(x) {
            let q = choose|q: int| 0 <= q < v@.len() && v@[q] == x;
        }
    }
    v.push(x);
}

/// Whether `v` holds `x`.
fn contains_node(v: &Vec<NodeIndex>, x: NodeIndex) -> (r: bool)
    ensures
        r == v@.contains(x),
{
    let mut i: usize = 0;
    while i < v.len()
        invariant
            i <= v@.len(),
            forall|q: int| 0 <= q < i ==> v@[q] != x,
        decreases v@.len() - i,
    {
        if v[i].0 == x.0 {
            proof {
                assert(v@[i as int] == x);
            }
            return true;
        }
        i += 1;
    }
    proof {
        if v@.contains(x) {
            let q = choose|q: int| 0 <= q < v@.len() && v@[q] == x;
        }
    }
    false
}

} // verus!
