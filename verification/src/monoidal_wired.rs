//! The wired intermediate form of a monoidal graph: slices of operations
//! that still carry explicit port provenance, alternating with `Wiring`
//! layers.  Flattening interleaves each wiring's copy/swap slices with the
//! corresponding operation slice, yielding an arity-composing diagram.

use vstd::prelude::*;
use vstd::multiset::Multiset;
use crate::hypergraph::{HyperGraph, HyperGraphError, Node, NodeIndex, Port, PortIndex, in_ranks, ascending, sum_outs_of_list, lemma_input_list_sum, lemma_body_decreases};
use crate::monoidal::{MonoidalGraph, MonoidalOp, Slice, slice_ops, slices_compose, lemma_slices_compose_push, sum_inputs, sum_outputs, lemma_sum_push_in, lemma_sum_push_out};
use crate::wiring::{Wiring, lowered_layers};

verus! {

broadcast use
    vstd::seq_lib::lemma_seq_contains_after_push,
    vstd::seq_lib::group_to_multiset_ensures,
    vstd::multiset::group_multiset_axioms;

/// Failures of the monoidal synthesis step.
#[derive(Clone, Copy, PartialEq, Eq, Structural, Debug)]
pub enum FromHyperError {
    /// The hypergraph holds no interior nodes to lower to a diagram.
    EmptyGraph,
    /// A structural reference was dangling.
    HyperGraphError(HyperGraphError),
}

/// An operation of a wired slice, keeping the source ports it consumes.
#[derive(Debug, PartialEq, Eq)]
pub enum MonoidalWiredOp<E> {
    /// A wire carried through this rank unchanged.
    Id { port: Port },
    /// A leaf operation with its consumed ports.
    Operation { inputs: Vec<Port>, op_name: E },
    /// A nested thunk with its consumed ports and synthesised body.
    Thunk { inputs: Vec<Port>, args: usize, body: MonoidalWiredGraph<E> },
}

/// A slice of wired operations, each tagged with its arena path.
#[derive(Debug, PartialEq, Eq)]
pub struct WiredSlice<E> {
    pub ops: Vec<(MonoidalWiredOp<E>, Vec<NodeIndex>)>,
}

/// The wired monoidal graph: `wirings[i]` routes wires into `slices[i]`,
/// and a final wiring closes the chain at the input boundary.
#[derive(Debug, PartialEq, Eq)]
pub struct MonoidalWiredGraph<E> {
    pub inputs: usize,
    pub slices: Vec<WiredSlice<E>>,
    pub wirings: Vec<Wiring>,
}

impl<E> MonoidalWiredOp<E> {
    /// Returns number of inputs of an operation.
    pub open spec fn spec_inputs(self) -> int {
        match self {
            MonoidalWiredOp::Id { port } => 1,
            MonoidalWiredOp::Operation { inputs, op_name } => inputs@.len() as int,
            MonoidalWiredOp::Thunk { inputs, args, body } => inputs@.len() as int,
        }
    }

    /// Every wired operation produces exactly one wire.
    pub open spec fn spec_outputs(self) -> int {
        1
    }

    /// A thunk's body is itself well wired, and its wire count matches the
    /// declared arguments plus the captured ports.
    pub open spec fn wired_wf(self) -> bool
        decreases self,
    {
        match self {
            MonoidalWiredOp::Thunk { inputs, args, body } => body.wired_wf() && args
                + inputs@.len() == body.inputs,
            _ => true,
        }
    }

    /// The ports an operation consumes.
    pub fn input_ports(&self) -> (r: Vec<Port>)
        ensures
            r@.len() == self.spec_inputs(),
            self matches MonoidalWiredOp::Id { port } ==> r@ == seq![*port],
            self matches MonoidalWiredOp::Operation { inputs, op_name } ==> r@ == inputs@,
            self matches MonoidalWiredOp::Thunk { inputs, args, body } ==> r@ == inputs@,
    {
        match self {
            MonoidalWiredOp::Id { port } => {
                let mut v: Vec<Port> = Vec::new();
                v.push(*port);
                proof {
                    assert(v@ =~= seq![*port]);
                }
                v
            }
            MonoidalWiredOp::Operation { inputs, .. } => clone_port_vec(inputs),
            MonoidalWiredOp::Thunk { inputs, .. } => clone_port_vec(inputs),
        }
    }

    /// Returns number of inputs of an operation.
    pub fn number_of_inputs(&self) -> (r: usize)
        ensures
            r == self.spec_inputs(),
    {
        match self {
            MonoidalWiredOp::Id { .. } => 1,
            MonoidalWiredOp::Operation { inputs, .. } => inputs.len(),
            MonoidalWiredOp::Thunk { inputs, .. } => inputs.len(),
        }
    }

    /// Returns number of outputs of an operation.
    pub fn number_of_outputs(&self) -> (r: usize)
        ensures
            r == 1,
    {
        1
    }
}

/// Total wires entering a sequence of wired operations.
pub open spec fn wired_sum_inputs<E>(ops: Seq<MonoidalWiredOp<E>>) -> int
    decreases ops.len(),
{
    if ops.len() == 0 {
        0
    } else {
        ops[0].spec_inputs() + wired_sum_inputs(ops.drop_first())
    }
}

pub proof fn lemma_wired_sum_push<E>(ops: Seq<MonoidalWiredOp<E>>, x: MonoidalWiredOp<E>)
    ensures
        wired_sum_inputs(ops.push(x)) == wired_sum_inputs(ops) + x.spec_inputs(),
    decreases ops.len(),
{
    if ops.len() == 0 {
        assert(ops.push(x).drop_first() =~= Seq::<MonoidalWiredOp<E>>::empty());
        assert(ops.push(x)[0] == x);
        assert(wired_sum_inputs(Seq::<MonoidalWiredOp<E>>::empty()) == 0);
    } else {
        assert(ops.push(x).drop_first() =~= ops.drop_first().push(x));
        assert(ops.push(x)[0] == ops[0]);
        lemma_wired_sum_push(ops.drop_first(), x);
    }
}


pub proof fn lemma_wired_sum_nonneg<E>(ops: Seq<MonoidalWiredOp<E>>)
    ensures
        wired_sum_inputs(ops) >= 0,
    decreases ops.len(),
{
    if ops.len() > 0 {
        lemma_wired_sum_nonneg(ops.drop_first());
    }
}

/// Splitting a wired sum at position `m`.
proof fn lemma_wired_sum_step<E>(ops: Seq<MonoidalWiredOp<E>>, m: int)
    requires
        0 <= m < ops.len(),
    ensures
        wired_sum_inputs(ops.skip(m)) == ops[m].spec_inputs() + wired_sum_inputs(ops.skip(m + 1)),
        wired_sum_inputs(ops.take(m + 1)) == wired_sum_inputs(ops.take(m)) + ops[m].spec_inputs(),
    decreases ops.len(),
{
    assert(ops.skip(m).drop_first() =~= ops.skip(m + 1));
    assert(ops.skip(m)[0] == ops[m]);
    assert(ops.take(m + 1) =~= ops.take(m).push(ops[m]));
    lemma_wired_sum_push(ops.take(m), ops[m]);
}

/// The bare wired operations of a slice.
pub open spec fn wired_slice_ops<E>(s: WiredSlice<E>) -> Seq<MonoidalWiredOp<E>> {
    s.ops@.map_values(|pr: (MonoidalWiredOp<E>, Vec<NodeIndex>)| pr.0)
}

impl<E> WiredSlice<E> {
    pub open spec fn spec_inputs(self) -> int {
        wired_sum_inputs(wired_slice_ops(self))
    }

    /// One output wire per operation.
    pub open spec fn spec_outputs(self) -> int {
        self.ops@.len() as int
    }

    pub open spec fn wired_wf(self) -> bool {
        forall|m: int|
            0 <= m < wired_slice_ops(self).len() ==> (#[trigger] wired_slice_ops(self)[m]).wired_wf()
    }

    /// Returns the number of wires entering the slice.
    pub fn number_of_inputs(&self) -> (r: usize)
        requires
            self.spec_inputs() <= usize::MAX,
        ensures
            r == self.spec_inputs(),
    {
        let mut total: usize = 0;
        let mut m: usize = 0;
        proof {
            assert(wired_slice_ops(*self).take(0) =~= Seq::<MonoidalWiredOp<E>>::empty());
            assert(wired_slice_ops(*self).skip(0) =~= wired_slice_ops(*self));
            lemma_wired_sum_nonneg(wired_slice_ops(*self));
        }
        while m < self.ops.len()
            invariant
                self.spec_inputs() <= usize::MAX,
                m <= self.ops@.len(),
                total == wired_sum_inputs(wired_slice_ops(*self).take(m as int)),
                wired_sum_inputs(wired_slice_ops(*self).take(m as int)) + wired_sum_inputs(
                    wired_slice_ops(*self).skip(m as int),
                ) == self.spec_inputs(),
                wired_sum_inputs(wired_slice_ops(*self).skip(m as int)) >= 0,
            decreases self.ops@.len() - m,
        {
            proof {
                lemma_wired_sum_step(wired_slice_ops(*self), m as int);
                lemma_wired_sum_nonneg(wired_slice_ops(*self).skip(m + 1));
                assert(wired_slice_ops(*self)[m as int] == self.ops@[m as int].0);
            }
            total = total + self.ops[m].0.number_of_inputs();
            m += 1;
        }
        proof {
            assert(wired_slice_ops(*self).take(self.ops@.len() as int) =~= wired_slice_ops(*self));
        }
        total
    }

    /// Returns the number of wires leaving the slice: one per operation.
    pub fn number_of_outputs(&self) -> (r: usize)
        ensures
            r == self.spec_outputs(),
    {
        self.ops.len()
    }
}

impl<E> MonoidalWiredGraph<E> {
    /// The wirings and slices alternate and agree on wire counts: wiring
    /// `i` routes from the slice above it down to slice `i`'s consumed
    /// ports, and the topmost wiring starts at the graph's inputs.
    pub open spec fn wired_wf(self) -> bool
        decreases self,
    {
        &&& self.wirings@.len() >= 1
        &&& (self.wirings@.len() == self.slices@.len() + 1 || self.wirings@.len()
            == self.slices@.len())
        &&& forall|i: int| 0 <= i < self.wirings@.len() ==> (#[trigger] self.wirings@[i]).wf()
        &&& self.inputs == self.wirings@[0].forward_len()
        &&& forall|i: int|
            0 <= i < self.slices@.len() ==> (#[trigger] self.wirings@[i]).backward_len()
                == self.slices@[i].spec_inputs()
        &&& forall|i: int|
            0 <= i < self.slices@.len() && i + 1 < self.wirings@.len()
                ==> (#[trigger] self.slices@[i]).spec_outputs() == self.wirings@[i + 1].forward_len()
        &&& forall|i: int, m: int|
            0 <= i < self.slices@.len() && 0 <= m < self.slices@[i].ops@.len()
                ==> (#[trigger] self.slices@[i].ops@[m].0).wired_wf()
    }
}

impl<E> Default for MonoidalWiredGraph<E> {
    /// The wired form of the empty diagram: no slices, one empty wiring.
    fn default() -> (r: Self)
        ensures
            r.wired_wf(),
            r.inputs == 0,
            r.slices@.len() == 0,
            r.wirings@.len() == 1,
    {
        MonoidalWiredGraph { inputs: 0, slices: Vec::new(), wirings: vec![Wiring::new(0)] }
    }
}


/// What a wired operation flattens to: an identity wire for a carried
/// port, a leaf operation with the same name and its port count, or a
/// thunk with the same argument count whose body is the flattening of the
/// wired body.
pub open spec fn op_flattens<E>(w: MonoidalWiredOp<E>, f: MonoidalOp<E>) -> bool
    decreases w,
{
    match w {
        MonoidalWiredOp::Id { port } => f == (MonoidalOp::<E>::Copy { copies: 1 }),
        MonoidalWiredOp::Operation { inputs, op_name } => f matches MonoidalOp::Operation {
            inputs: fi,
            op_name: fo,
        } && fi == inputs@.len() && fo == op_name,
        MonoidalWiredOp::Thunk { inputs, args, body } => f matches MonoidalOp::Thunk {
            args: fa,
            body: fb,
            expanded,
        } && fa == args && expanded && graph_flattens(body, fb),
    }
}

/// A flattened slice holds the same operations in the same order, each
/// stripped of its ports, with the arena addresses kept.
pub open spec fn slice_flattens<E>(ws: WiredSlice<E>, fs: Slice<E>) -> bool
    decreases ws,
{
    &&& fs.ops@.len() == ws.ops@.len()
    &&& forall|m: int|
        0 <= m < ws.ops@.len() ==> op_flattens((#[trigger] ws.ops@[m]).0, fs.ops@[m].0)
    &&& forall|m: int| 0 <= m < ws.ops@.len() ==> (#[trigger] fs.ops@[m]).1@ == ws.ops@[m].1@
}

/// The flattened slice list consumes the wirings and wired slices front to
/// back: each wiring's lowered copy/swap layers, then the flattening of
/// the corresponding operation slice; a final wiring may close the chain.
pub open spec fn flat_slices_ok<E>(
    wirings: Seq<Wiring>,
    wslices: Seq<WiredSlice<E>>,
    out: Seq<Slice<E>>,
) -> bool
    decreases wslices, wirings.len(),
{
    if wirings.len() == 0 {
        out.len() == 0 && wslices.len() == 0
    } else {
        let lw = lowered_layers::<E>(wirings[0]);
        &&& out.len() >= lw.len()
        &&& out.take(lw.len() as int).map_values(|s: Slice<E>| slice_ops(s)) == lw
        &&& if wslices.len() > 0 {
            &&& out.len() >= lw.len() + 1
            &&& slice_flattens(wslices[0], out[lw.len() as int])
            &&& flat_slices_ok(wirings.drop_first(), wslices.drop_first(), out.skip(lw.len() as int + 1))
        } else {
            &&& wirings.len() == 1
            &&& out.len() == lw.len()
        }
    }
}

/// `g` is the flattening of the wired graph `m`.
pub open spec fn graph_flattens<E>(m: MonoidalWiredGraph<E>, g: MonoidalGraph<E>) -> bool
    decreases m,
{
    &&& g.inputs == m.inputs
    &&& flat_slices_ok(m.wirings@, m.slices@, g.slices@)
}

impl<E: Copy> MonoidalWiredOp<E> {
    /// Strips the provenance from one wired operation, recursively
    /// flattening a thunk's body.
    pub fn to_monoidal_op(&self, node: &[NodeIndex]) -> (r: Result<MonoidalOp<E>, FromHyperError>)
        requires
            self.wired_wf(),
        ensures
            r matches Ok(op) && op_flattens(*self, op) && op.spec_inputs() == self.spec_inputs()
                && op.spec_outputs() == 1 && op.arity_wf(),
        decreases self,
    {
        match self {
            MonoidalWiredOp::Id { .. } => Ok(MonoidalOp::Copy { copies: 1 }),
            MonoidalWiredOp::Operation { inputs, op_name } => Ok(MonoidalOp::Operation {
                inputs: inputs.len(),
                op_name: *op_name,
            }),
            MonoidalWiredOp::Thunk { inputs, args, body } => {
                let flat = body.to_graph(node);
                match flat {
                    Ok(b) => Ok(MonoidalOp::Thunk { args: *args, body: b, expanded: true }),
                    Err(e) => Err(e),
                }
            }
        }
    }
}

impl<E: Copy> WiredSlice<E> {
    /// Strips the provenance from every operation of the slice, keeping the
    /// arena paths.
    pub fn to_slice(&self) -> (r: Result<Slice<E>, FromHyperError>)
        requires
            self.wired_wf(),
        ensures
            r matches Ok(s) && {
                &&& slice_flattens(*self, s)
                &&& s.spec_inputs() == self.spec_inputs()
                &&& s.spec_outputs() == self.spec_outputs()
                &&& s.arity_wf()
                &&& s.ops@.len() == self.ops@.len()
                &&& forall|m: int| 0 <= m < s.ops@.len() ==> (#[trigger] s.ops@[m].1)@ == self.ops@[m].1@
            },
        decreases self,
    {
        let mut items: Vec<(MonoidalOp<E>, Vec<NodeIndex>)> = Vec::new();
        let mut m: usize = 0;
        proof {
            assert(slice_ops(Slice::<E> { ops: items }) =~= Seq::<MonoidalOp<E>>::empty());
            assert(wired_slice_ops(*self).take(0) =~= Seq::<MonoidalWiredOp<E>>::empty());
        }
        while m < self.ops.len()
            invariant
                self.wired_wf(),
                m <= self.ops@.len(),
                items@.len() == m,
                sum_inputs(items@.map_values(|pr: (MonoidalOp<E>, Vec<NodeIndex>)| pr.0))
                    == wired_sum_inputs(wired_slice_ops(*self).take(m as int)),
                sum_outputs(items@.map_values(|pr: (MonoidalOp<E>, Vec<NodeIndex>)| pr.0)) == m,
                forall|q: int|
                    0 <= q < m ==> (#[trigger] items@[q].0).arity_wf(),
                forall|q: int|
                    0 <= q < m ==> op_flattens((#[trigger] self.ops@[q]).0, items@[q].0),
                forall|q: int| 0 <= q < m ==> (#[trigger] items@[q].1)@ == self.ops@[q].1@,
            decreases self.ops@.len() - m,
        {
            proof {
                assert(wired_slice_ops(*self)[m as int] == self.ops@[m as int].0);
                assert(self.ops@[m as int].0.wired_wf());
            }
            let flat = self.ops[m].0.to_monoidal_op(self.ops[m].1.as_slice());
            let op = match flat {
                Ok(op) => op,
                Err(e) => {
                    return Err(e);
                }
            };
            let addr = clone_index_vec(self.ops[m].1.as_slice());
            proof {
                let pre_ops = items@.map_values(|pr: (MonoidalOp<E>, Vec<NodeIndex>)| pr.0);
                lemma_sum_push_in(pre_ops, op);
                lemma_sum_push_out(pre_ops, op);
                assert(items@.push((op, addr)).map_values(|pr: (MonoidalOp<E>, Vec<NodeIndex>)| pr.0)
                    =~= pre_ops.push(op));
                assert(wired_slice_ops(*self).take(m + 1) =~= wired_slice_ops(*self).take(
                    m as int,
                ).push(wired_slice_ops(*self)[m as int]));
                lemma_wired_sum_push(
                    wired_slice_ops(*self).take(m as int),
                    wired_slice_ops(*self)[m as int],
                );
            }
            items.push((op, addr));
            m += 1;
        }
        proof {
            assert(wired_slice_ops(*self).take(self.ops@.len() as int) =~= wired_slice_ops(*self));
            let final_ops = items@.map_values(|pr: (MonoidalOp<E>, Vec<NodeIndex>)| pr.0);
            assert(slice_ops(Slice::<E> { ops: items }) =~= final_ops);
        }
        Ok(Slice { ops: items })
    }
}


/// Appending one wiring's lowered layers and the flattening of its
/// operation slice advances the front-to-back consumption by one step.
proof fn lemma_flat_step_slice<E>(
    wirings: Seq<Wiring>,
    wslices: Seq<WiredSlice<E>>,
    i: int,
    out_start: Seq<Slice<E>>,
    out_new: Seq<Slice<E>>,
    fs: Slice<E>,
)
    requires
        0 <= i < wirings.len(),
        i < wslices.len(),
        out_new.len() == out_start.len() + lowered_layers::<E>(wirings[i]).len() + 1,
        out_new.take(out_start.len() as int) == out_start,
        forall|q: int|
            0 <= q < lowered_layers::<E>(wirings[i]).len() ==> slice_ops(
                #[trigger] out_new[out_start.len() + q],
            ) == lowered_layers::<E>(wirings[i])[q],
        out_new[out_start.len() as int + lowered_layers::<E>(wirings[i]).len() as int] == fs,
        slice_flattens(wslices[i], fs),
        forall|rest: Seq<Slice<E>>|
            #[trigger] flat_slices_ok(wirings.skip(i), wslices.skip(i), rest) ==> flat_slices_ok(
                wirings,
                wslices,
                out_start + rest,
            ),
    ensures
        forall|rest: Seq<Slice<E>>|
            #[trigger] flat_slices_ok(wirings.skip(i + 1), wslices.skip(i + 1), rest)
                ==> flat_slices_ok(wirings, wslices, out_new + rest),
{
    let lw = lowered_layers::<E>(wirings[i]);
    let seg = out_new.skip(out_start.len() as int);
    assert forall|rest: Seq<Slice<E>>|
        #[trigger] flat_slices_ok(wirings.skip(i + 1), wslices.skip(i + 1), rest)
        implies flat_slices_ok(wirings, wslices, out_new + rest) by {
        let mid_rest = seg + rest;
        assert(flat_slices_ok(wirings.skip(i), wslices.skip(i), mid_rest)) by {
            assert(wirings.skip(i)[0] == wirings[i]);
            assert(wslices.skip(i)[0] == wslices[i]);
            assert(mid_rest.take(lw.len() as int).map_values(|s2: Slice<E>| slice_ops(s2))
                =~= lw) by {
                assert forall|q: int| 0 <= q < lw.len() implies slice_ops(
                    #[trigger] mid_rest.take(lw.len() as int)[q],
                ) == lw[q] by {
                    assert(mid_rest[q] == seg[q]);
                    assert(seg[q] == out_new[out_start.len() + q]);
                }
            }
            assert(mid_rest[lw.len() as int] == seg[lw.len() as int]);
            assert(seg[lw.len() as int] == out_new[out_start.len() as int + lw.len() as int]);
            assert(wirings.skip(i).drop_first() =~= wirings.skip(i + 1));
            assert(wslices.skip(i).drop_first() =~= wslices.skip(i + 1));
            assert(mid_rest.skip(lw.len() as int + 1) =~= rest);
        }
        assert(out_start + mid_rest =~= out_new + rest);
        assert(flat_slices_ok(wirings, wslices, out_start + mid_rest));
    }
}

/// The final wiring closes the chain: its lowered layers are appended and
/// nothing may follow.
proof fn lemma_flat_step_final<E>(
    wirings: Seq<Wiring>,
    wslices: Seq<WiredSlice<E>>,
    i: int,
    out_start: Seq<Slice<E>>,
    out_new: Seq<Slice<E>>,
)
    requires
        0 <= i < wirings.len(),
        i == wslices.len(),
        i == wirings.len() - 1,
        out_new.len() == out_start.len() + lowered_layers::<E>(wirings[i]).len(),
        out_new.take(out_start.len() as int) == out_start,
        forall|q: int|
            0 <= q < lowered_layers::<E>(wirings[i]).len() ==> slice_ops(
                #[trigger] out_new[out_start.len() + q],
            ) == lowered_layers::<E>(wirings[i])[q],
        forall|rest: Seq<Slice<E>>|
            #[trigger] flat_slices_ok(wirings.skip(i), wslices.skip(i), rest) ==> flat_slices_ok(
                wirings,
                wslices,
                out_start + rest,
            ),
    ensures
        forall|rest: Seq<Slice<E>>|
            #[trigger] flat_slices_ok(wirings.skip(i + 1), wslices.skip(i), rest)
                ==> flat_slices_ok(wirings, wslices, out_new + rest),
{
    let lw = lowered_layers::<E>(wirings[i]);
    let seg = out_new.skip(out_start.len() as int);
    assert forall|rest: Seq<Slice<E>>|
        #[trigger] flat_slices_ok(wirings.skip(i + 1), wslices.skip(i), rest)
        implies flat_slices_ok(wirings, wslices, out_new + rest) by {
        assert(wirings.skip(i + 1).len() == 0);
        assert(rest.len() == 0);
        let mid_rest = seg + rest;
        assert(mid_rest =~= seg);
        assert(flat_slices_ok(wirings.skip(i), wslices.skip(i), mid_rest)) by {
            assert(wirings.skip(i)[0] == wirings[i]);
            assert(wirings.skip(i).len() == 1);
            assert(wslices.skip(i).len() == 0);
            assert(mid_rest.take(lw.len() as int).map_values(|s2: Slice<E>| slice_ops(s2))
                =~= lw) by {
                assert forall|q: int| 0 <= q < lw.len() implies slice_ops(
                    #[trigger] mid_rest.take(lw.len() as int)[q],
                ) == lw[q] by {
                    assert(mid_rest[q] == seg[q]);
                    assert(seg[q] == out_new[out_start.len() + q]);
                }
            }
        }
        assert(out_start + mid_rest =~= out_new + rest);
        assert(flat_slices_ok(wirings, wslices, out_start + mid_rest));
    }
}

impl<E: Copy> MonoidalWiredGraph<E> {
    /// Flattens the wired graph by interleaving every wiring's copy/swap
    /// layers with the corresponding operation slice.  The result's slice
    /// arities compose, starting from the graph's declared inputs.
    #[verifier::rlimit(50)]
    pub fn to_graph(&self, prefix: &[NodeIndex]) -> (r: Result<MonoidalGraph<E>, FromHyperError>)
        requires
            self.wired_wf(),
        ensures
            r matches Ok(g) && {
                &&& graph_flattens(*self, g)
                &&& g.arity_ok()
                &&& g.arity_wf()
                &&& g.inputs == self.inputs
            },
        decreases self,
    {
        let mut out: Vec<Slice<E>> = Vec::new();
        let ghost mut cur: int = self.inputs as int;
        let ghost mut si: int = 0;
        let mut i: usize = 0;
        proof {
            assert(slices_compose(out@, self.inputs as int, cur));
            assert(self.wirings@.skip(0) =~= self.wirings@);
            assert(self.slices@.skip(0) =~= self.slices@);
            assert forall|rest: Seq<Slice<E>>|
                #[trigger] flat_slices_ok(self.wirings@.skip(0), self.slices@.skip(0), rest)
                implies flat_slices_ok(self.wirings@, self.slices@, out@ + rest) by {
                assert(out@ + rest =~= rest);
            }
        }
        while i < self.wirings.len()
            invariant
                self.wired_wf(),
                i <= self.wirings@.len(),
                si == (if i <= self.slices@.len() { i as int } else { self.slices@.len() as int }),
                slices_compose(out@, self.inputs as int, cur),
                i < self.wirings@.len() ==> cur == self.wirings@[i as int].forward_len(),
                i == self.wirings@.len() ==> (i == self.slices@.len() + 1 ==> cur
                    == self.wirings@[i - 1].backward_len()),
                forall|q: int, w: int|
                    0 <= q < out@.len() && 0 <= w < slice_ops(#[trigger] out@[q]).len()
                        ==> (#[trigger] slice_ops(out@[q])[w]).arity_wf(),
                forall|rest: Seq<Slice<E>>|
                    #[trigger] flat_slices_ok(
                        self.wirings@.skip(i as int),
                        self.slices@.skip(si),
                        rest,
                    ) ==> flat_slices_ok(self.wirings@, self.slices@, out@ + rest),
            decreases self.wirings@.len() - i,
        {
            let ghost out_start = out@;
            let group: Vec<Slice<E>> = self.wirings[i].to_slices(prefix);
            let ghost lw = lowered_layers::<E>(self.wirings@[i as int]);
            let ghost mid = self.wirings@[i as int].backward_len();
            let ghost mut cur2: int = cur;
            let mut k: usize = 0;
            proof {
                assert(group@.map_values(|s: Slice<E>| slice_ops(s)) == lw);
                assert(group@.len() == lw.len());
            }
            while k < group.len()
                invariant
                    k <= group@.len(),
                    group@.map_values(|s: Slice<E>| slice_ops(s)) == lw,
                    out@.len() == out_start.len() + k,
                    out@.take(out_start.len() as int) == out_start,
                    forall|q: int|
                        0 <= q < k ==> slice_ops(#[trigger] out@[out_start.len() + q])
                            == slice_ops(group@[q]),
                    slices_compose(out@, self.inputs as int, cur2),
                    slices_compose(group@, cur, mid),
                    cur2 == (if k == 0 { cur } else { group@[k - 1].spec_outputs() }),
                    k < group@.len() ==> group@[k as int].spec_inputs() == cur2,
                    forall|q: int, w: int|
                        0 <= q < out@.len() && 0 <= w < slice_ops(#[trigger] out@[q]).len()
                            ==> (#[trigger] slice_ops(out@[q])[w]).arity_wf(),
                    forall|q: int, w: int|
                        0 <= q < group@.len() && 0 <= w < slice_ops(#[trigger] group@[q]).len()
                            ==> ((#[trigger] slice_ops(group@[q])[w]) is Copy || slice_ops(
                            group@[q],
                        )[w] is Swap),
                decreases group@.len() - k,
            {
                proof {
                    assert(forall|m: int|
                        0 <= m < group@[k as int].ops@.len() ==> slice_ops(group@[k as int])[m]
                            == #[trigger] group@[k as int].ops@[m].0);
                }
                let s = Slice { ops: clone_wiring_items(&group[k].ops) };
                let ghost out_pre = out@;
                proof {
                    assert(slice_ops(s) =~= slice_ops(group@[k as int]));
                    assert(s.spec_inputs() == group@[k as int].spec_inputs());
                    assert(s.spec_outputs() == group@[k as int].spec_outputs());
                    lemma_slices_compose_push(
                        out@,
                        s,
                        self.inputs as int,
                        cur2,
                        s.spec_outputs(),
                    );
                    cur2 = s.spec_outputs();
                }
                out.push(s);
                proof {
                    assert(out@.take(out_start.len() as int) =~= out_pre.take(
                        out_start.len() as int,
                    ));
                    assert forall|q: int|
                        0 <= q < k + 1 implies slice_ops(#[trigger] out@[out_start.len() + q])
                        == slice_ops(group@[q]) by {
                        if q < k {
                            assert(out@[out_start.len() + q] == out_pre[out_start.len() + q]);
                        } else {
                            assert(out@[out@.len() - 1] == s);
                        }
                    }
                }
                k += 1;
            }
            proof {
                if group@.len() == 0 {
                    assert(cur2 == cur);
                    assert(cur == mid);
                } else {
                    assert(cur2 == group@[group@.len() - 1].spec_outputs());
                    assert(cur2 == mid);
                }
                cur = mid;
            }
            if i < self.slices.len() {
                proof {
                    assert forall|m: int|
                        0 <= m < wired_slice_ops(self.slices@[i as int]).len()
                        implies (#[trigger] wired_slice_ops(self.slices@[i as int])[m]).wired_wf() by {
                        assert(wired_slice_ops(self.slices@[i as int])[m]
                            == self.slices@[i as int].ops@[m].0);
                    }
                }
                let flat = self.slices[i].to_slice();
                let s = match flat {
                    Ok(s) => s,
                    Err(e) => {
                        return Err(e);
                    }
                };
                let ghost out_mid = out@;
                proof {
                    lemma_slices_compose_push(
                        out@,
                        s,
                        self.inputs as int,
                        cur,
                        s.spec_outputs(),
                    );
                    cur = s.spec_outputs();
                }
                out.push(s);
                proof {
                    assert(out@.take(out_start.len() as int) =~= out_start);
                    assert forall|q: int| 0 <= q < lw.len() implies slice_ops(
                        #[trigger] out@[out_start.len() + q],
                    ) == lw[q] by {
                        assert(out@[out_start.len() + q] == out_mid[out_start.len() + q]);
                        assert(slice_ops(out_mid[out_start.len() + q]) == slice_ops(group@[q]));
                        assert(group@.map_values(|s2: Slice<E>| slice_ops(s2))[q] == slice_ops(
                            group@[q],
                        ));
                    }
                    assert(out@[out@.len() - 1] == s);
                    assert(si == i as int);
                    lemma_flat_step_slice(
                        self.wirings@,
                        self.slices@,
                        i as int,
                        out_start,
                        out@,
                        s,
                    );
                    si = si + 1;
                }
            } else {
                proof {
                    assert(out@.take(out_start.len() as int) =~= out_start);
                    assert forall|q: int| 0 <= q < lw.len() implies slice_ops(
                        #[trigger] out@[out_start.len() + q],
                    ) == lw[q] by {
                        assert(slice_ops(out@[out_start.len() + q]) == slice_ops(group@[q]));
                        assert(group@.map_values(|s2: Slice<E>| slice_ops(s2))[q] == slice_ops(
                            group@[q],
                        ));
                    }
                    assert(si == self.slices@.len() as int);
                    assert(i == self.slices@.len() && self.wirings@.len() == self.slices@.len()
                        + 1);
                    lemma_flat_step_final(self.wirings@, self.slices@, i as int, out_start, out@);
                }
            }
            i += 1;
        }
        proof {
            assert forall|q: int, w: int|
                0 <= q < out@.len() && 0 <= w < out@[q].ops@.len()
                implies (#[trigger] out@[q].ops@[w].0).arity_wf() by {
                assert(slice_ops(out@[q])[w] == out@[q].ops@[w].0);
            }
            // close the chain: nothing remains to consume
            assert(self.wirings@.skip(self.wirings@.len() as int).len() == 0);
            assert(self.slices@.skip(si).len() == 0);
            assert(flat_slices_ok(
                self.wirings@.skip(self.wirings@.len() as int),
                self.slices@.skip(si),
                Seq::<Slice<E>>::empty(),
            ));
            assert(out@ + Seq::<Slice<E>>::empty() =~= out@);
            assert(flat_slices_ok(self.wirings@, self.slices@, out@));
        }
        Ok(MonoidalGraph { inputs: self.inputs, slices: out })
    }
}

/// The per-iteration context of the synthesis: the graph's invariants and
/// the layered rank list `rk` (interior ranks, then the `Input` rank).
spec fn synth_ctx<E>(g: HyperGraph<E>, rk: Seq<Seq<NodeIndex>>, k: int) -> bool {
    &&& g.wf()
    &&& g.synth_wf()
    &&& g.node_count() <= usize::MAX
    &&& rk.len() == k + 1
    &&& k >= 0
    &&& g.ranks_layered(rk.take(k))
    &&& forall|j1: int, j2: int, i: int|
        0 <= j1 < j2 < k && #[trigger] rk[j1].contains(NodeIndex(i as usize))
            ==> !(#[trigger] rk[j2].contains(NodeIndex(i as usize)))
    &&& forall|i: int| g.is_interior(i) ==> in_ranks(rk.take(k), i)
    &&& forall|j: int, m: int|
        0 <= j < k && 0 <= m < rk[j].len() ==> g.is_interior((#[trigger] rk[j][m]).0 as int)
    &&& forall|j: int| 0 <= j < k ==> ascending(#[trigger] rk[j])
    &&& forall|m: int|
        0 <= m < rk[k].len() ==> (#[trigger] rk[k][m]).0 < g.node_count() && g.node_data(
            rk[k][m].0 as int,
        ) is Input
    &&& ascending(rk[k])
    &&& forall|i: int|
        0 <= i < g.node_count() && g.node_data(i) is Input ==> rk[k].contains(
            NodeIndex(i as usize),
        )
}

/// What holds of the open wires while rank `r` is about to be processed:
/// each addresses an existing output port whose producer sits in rank `r`
/// or later (the `Input` rank counted last).
spec fn opens_ok<E>(g: HyperGraph<E>, rk: Seq<Seq<NodeIndex>>, r: int, opens: Seq<Port>) -> bool {
    forall|m: int|
        0 <= m < opens.len() ==> {
            let p = #[trigger] opens[m];
            &&& g.valid_out_port(p)
            &&& exists|j: int| r <= j < rk.len() && (#[trigger] rk[j]).contains(p.node)
        }
}

/// Working record for one operation of a rank during synthesis: the wired
/// operation (absent for boundary `Input` nodes), its output port count,
/// its arena path, its node, and its ordering weight (the sum and count of
/// the open-wire positions demanding it, an average kept as an exact
/// fraction).
struct RankOp<E> {
    op: Option<MonoidalWiredOp<E>>,
    outputs: usize,
    addr: Vec<NodeIndex>,
    node: NodeIndex,
    wsum: u128,
    wcnt: u128,
}

/// What holds of every rank operation while synthesising rank `r` of the
/// layered rank list `rk` (whose last entry is the `Input` boundary rank).
spec fn rank_op_ok<E>(
    g: HyperGraph<E>,
    rk: Seq<Seq<NodeIndex>>,
    r: int,
    prefix: Seq<NodeIndex>,
    o: RankOp<E>,
) -> bool {
    &&& o.node.0 < g.node_count()
    &&& match o.op {
        Some(w) => match w {
            MonoidalWiredOp::Id { port } => {
                &&& port.node == o.node
                &&& g.valid_out_port(port)
                &&& o.outputs == 1
                &&& o.addr@ == prefix
                &&& exists|j: int| r < j < rk.len() && (#[trigger] rk[j]).contains(port.node)
            },
            MonoidalWiredOp::Operation { inputs, op_name } => {
                &&& g.node_data(o.node.0 as int) == Node::Weight(op_name)
                &&& inputs@ == g.node_inputs(o.node.0 as int)
                &&& o.outputs == 1
                &&& g.node_outputs(o.node.0 as int).len() == 1
                &&& o.addr@ == prefix.push(o.node)
                &&& 0 <= r < rk.len() && rk[r].contains(o.node)
            },
            MonoidalWiredOp::Thunk { inputs, args, body } => {
                &&& g.node_data(o.node.0 as int) matches Node::Thunk { args: nargs, body: nbody }
                    && nargs == args && nbody.lowerable() && body.inputs == nbody.input_wires()
                &&& inputs@ == g.node_inputs(o.node.0 as int)
                &&& o.outputs == 1
                &&& g.node_outputs(o.node.0 as int).len() == 1
                &&& w.wired_wf()
                &&& o.addr@ == prefix.push(o.node)
                &&& 0 <= r < rk.len() && rk[r].contains(o.node)
            },
        },
        None => {
            &&& g.node_data(o.node.0 as int) is Input
            &&& o.outputs == g.node_outputs(o.node.0 as int).len()
            &&& 0 <= r < rk.len() && rk[r].contains(o.node)
        },
    }
}


/// Every entry of `ops` is a valid rank operation for rank `r`.
spec fn rank_ops_ok<E>(
    g: HyperGraph<E>,
    rk: Seq<Seq<NodeIndex>>,
    r: int,
    prefix: Seq<NodeIndex>,
    ops: Seq<RankOp<E>>,
) -> bool {
    forall|q: int| 0 <= q < ops.len() ==> rank_op_ok(g, rk, r, prefix, #[trigger] ops[q])
}



/// Some identity operation of the list carries exactly this open wire.
spec fn id_covered<E>(p: Port, ops: Seq<RankOp<E>>) -> bool {
    exists|q: int|
        0 <= q < ops.len() && (#[trigger] ops[q]).op == Some(MonoidalWiredOp::<E>::Id { port: p })
}

/// Every open wire is produced in this rank or carried by an identity
/// operation of the list.
spec fn rank_id_cover<E>(
    rk: Seq<Seq<NodeIndex>>,
    r: int,
    opens: Seq<Port>,
    ops: Seq<RankOp<E>>,
) -> bool {
    forall|t2: int|
        0 <= t2 < opens.len() ==> rk[r].contains((#[trigger] opens[t2]).node) || id_covered(
            opens[t2],
            ops,
        )
}

/// Some non-identity operation of the list belongs to this node.
spec fn node_covered<E>(node: NodeIndex, ops: Seq<RankOp<E>>) -> bool {
    exists|q3: int|
        0 <= q3 < ops.len() && (#[trigger] ops[q3]).node == node && !(ops[q3].op matches Some(
            MonoidalWiredOp::Id { port },
        ))
}

/// Every node of the rank owns a non-identity operation in the list.
spec fn rank_node_cover<E>(rk: Seq<Seq<NodeIndex>>, r: int, ops: Seq<RankOp<E>>) -> bool {
    forall|u: int| #![trigger rk[r][u]] 0 <= u < rk[r].len() ==> node_covered(rk[r][u], ops)
}

/// At the boundary rank the operations are exactly the `Input` nodes, in
/// the given order, each carrying its own output port count.
spec fn rank_aligned<E>(g: HyperGraph<E>, rk: Seq<Seq<NodeIndex>>, k: int, ops: Seq<RankOp<E>>) -> bool {
    &&& ops.len() == rk[k].len()
    &&& forall|u: int|
        0 <= u < ops.len() ==> (#[trigger] ops[u]).node == rk[k][u] && ops[u].outputs
            == g.node_outputs(rk[k][u].0 as int).len()
}

/// What `build_rank_ops` guarantees of the operation list for rank `r`.
spec fn rank_ops_built<E>(
    g: HyperGraph<E>,
    rk: Seq<Seq<NodeIndex>>,
    r: int,
    k: int,
    prefix: Seq<NodeIndex>,
    opens: Seq<Port>,
    ops: Seq<RankOp<E>>,
) -> bool {
    &&& rank_ops_ok(g, rk, r, prefix, ops)
    &&& forall|q: int| 0 <= q < ops.len() ==> (#[trigger] ops[q]).wcnt <= usize::MAX as u128
    &&& rank_id_cover(rk, r, opens, ops)
    &&& rank_node_cover(rk, r, ops)
    &&& rank_nodes_distinct(ops)
    &&& (r == k ==> rank_aligned(g, rk, k, ops))
    &&& (forall|u: int|
        0 <= u < rk[r].len() ==> match g.node_data((#[trigger] rk[r][u]).0 as int) {
            Node::Thunk { args, body } => body.lowerable(),
            _ => true,
        })
}

/// Builds the operation list for one rank: an identity operation per open
/// wire passing through, then one operation per node of the rank, ordered
/// by the demand-position heuristic (the boundary rank keeps its given
/// order).  Fails exactly when a nested thunk body cannot be lowered.
#[verifier::rlimit(100)]
fn build_rank_ops<E: Copy>(
    graph: &HyperGraph<E>,
    rank_vec: &Vec<NodeIndex>,
    open_wires: &Vec<Port>,
    prefix: &[NodeIndex],
    final_rank: bool,
    Ghost(rk): Ghost<Seq<Seq<NodeIndex>>>,
    Ghost(r): Ghost<int>,
    Ghost(k): Ghost<int>,
) -> (res: Result<Vec<RankOp<E>>, FromHyperError>)
    requires
        synth_ctx(*graph, rk, k),
        0 <= r <= k,
        final_rank == (r == k),
        rank_vec@ == rk[r],
        opens_ok(*graph, rk, r, open_wires@),
    ensures
        res matches Ok(ops) ==> rank_ops_built(*graph, rk, r, k, prefix@, open_wires@, ops@),
        res is Err ==> !graph.lowerable() && res == Err::<Vec<RankOp<E>>, FromHyperError>(
            FromHyperError::EmptyGraph,
        ),
    decreases *graph, 0int,
{
    let opens_count = open_wires.len();
    let mut ops: Vec<RankOp<E>> = Vec::new();
    let mut m: usize = 0;
    while m < open_wires.len()
        invariant
            synth_ctx(*graph, rk, k),
            0 <= r <= k,
            rank_vec@ == rk[r],
            opens_ok(*graph, rk, r, open_wires@),
            m <= open_wires@.len(),
            open_wires@.len() <= usize::MAX,
            rank_ops_ok(*graph, rk, r, prefix@, ops@),
            forall|q: int|
                0 <= q < ops@.len() ==> (#[trigger] ops@[q]).op matches Some(
                    MonoidalWiredOp::Id { port },
                ),
            forall|q: int| 0 <= q < ops@.len() ==> (#[trigger] ops@[q]).wcnt <= usize::MAX as u128,
            rank_id_cover(rk, r, open_wires@.take(m as int), ops@),
        decreases open_wires@.len() - m,
    {
        proof {
            assert(open_wires@.take(m + 1).drop_last() =~= open_wires@.take(m as int));
            assert(forall|t2: int|
                0 <= t2 < m + 1 ==> #[trigger] open_wires@.take(m + 1)[t2] == open_wires@[t2]);
        }
        let p = open_wires[m];
        let in_rank = contains_index(rank_vec, p.node);
        if in_rank {
            proof {
                assert(rk[r].contains(open_wires@[m as int].node));
                assert(rank_id_cover(rk, r, open_wires@.take(m + 1), ops@));
            }
        }
        if !in_rank {
            proof {
                let j = choose|j: int| r <= j < rk.len() && #[trigger] rk[j].contains(p.node);
                assert(j != r);
            }
            let addr = clone_index_vec(prefix);
            let ghost pre_ops = ops@;
            ops.push(
                RankOp {
                    op: Some(MonoidalWiredOp::Id { port: p }),
                    outputs: 1,
                    addr,
                    node: p.node,
                    wsum: m as u128,
                    wcnt: 1,
                },
            );
            proof {
                assert forall|t2: int| 0 <= t2 < m + 1 implies rk[r].contains(
                    (#[trigger] open_wires@[t2]).node,
                ) || id_covered(open_wires@[t2], ops@) by {
                    if t2 == m {
                        assert(ops@[ops@.len() - 1].op == Some(
                            MonoidalWiredOp::<E>::Id { port: open_wires@[t2] },
                        ));
                        assert(id_covered(open_wires@[t2], ops@));
                    } else {
                        if !rk[r].contains(open_wires@[t2].node) {
                            assert(open_wires@.take(m as int)[t2] == open_wires@[t2]);
                            assert(id_covered(open_wires@[t2], pre_ops));
                            let q0 = choose|q0: int|
                                0 <= q0 < pre_ops.len() && (#[trigger] pre_ops[q0]).op == Some(
                                    MonoidalWiredOp::<E>::Id { port: open_wires@[t2] },
                                );
                            assert(ops@[q0].op == Some(
                                MonoidalWiredOp::<E>::Id { port: open_wires@[t2] },
                            ));
                            assert(id_covered(open_wires@[t2], ops@));
                        }
                    }
                }
                assert(rank_id_cover(rk, r, open_wires@.take(m + 1), ops@));
            }
        }
        m += 1;
    }
    let ghost id_count = ops@.len();
    proof {
        assert(open_wires@.take(open_wires@.len() as int) =~= open_wires@);
        assert(rank_id_cover(rk, r, open_wires@, ops@));
    }

    proof {
        if r == k {
            // no pass-through wires at the boundary rank
            if ops@.len() > 0 {
                assert(rank_op_ok(*graph, rk, r, prefix@, ops@[0]));
                assert(false);
            }
        }
    }

    // One operation per node of the rank.
    let mut t: usize = 0;
    while t < rank_vec.len()
        invariant
            synth_ctx(*graph, rk, k),
            0 <= r <= k,
            rank_vec@ == rk[r],
            opens_ok(*graph, rk, r, open_wires@),
            open_wires@.len() <= usize::MAX,
            t <= rank_vec@.len(),
            ops@.len() == id_count + t,
            forall|q: int|
                0 <= q < id_count ==> (#[trigger] ops@[q]).op matches Some(
                    MonoidalWiredOp::Id { port },
                ),
            r == k ==> id_count == 0,
            rank_ops_ok(*graph, rk, r, prefix@, ops@),
            forall|q: int| 0 <= q < ops@.len() ==> (#[trigger] ops@[q]).wcnt <= usize::MAX as u128,
            rank_id_cover(rk, r, open_wires@, ops@),
            forall|u: int|
                0 <= u < t ==> (#[trigger] ops@[id_count + u]).node == rk[r][u] && !(ops@[id_count
                    + u].op matches Some(MonoidalWiredOp::Id { port })) && ops@[id_count + u].outputs
                    == graph.node_outputs(rk[r][u].0 as int).len(),
            forall|u: int|
                0 <= u < t ==> match graph.node_data((#[trigger] rk[r][u]).0 as int) {
                    Node::Thunk { args, body } => body.lowerable(),
                    _ => true,
                },
        decreases rank_vec@.len() - t,
    {
        let node = rank_vec[t];
        proof {
            if r == k {
            } else {
                assert(graph.is_interior(node.0 as int));
            }
            assert(node.0 < graph.node_count());
        }

        // demand weight: sum and count of the open positions fed by this node
        let mut wsum: u128 = 0;
        let mut wcnt: u128 = 0;
        let mut q: usize = 0;
        while q < open_wires.len()
            invariant
                q <= open_wires@.len(),
                open_wires@.len() <= usize::MAX,
                wcnt <= q as u128,
                wsum <= wcnt * (usize::MAX as u128),
            decreases open_wires@.len() - q,
        {
            if open_wires[q].node.0 == node.0 {
                proof {
                    assert(wsum + q as u128 <= (wcnt + 1) * (usize::MAX as u128) && (wcnt + 1) * (
                    usize::MAX as u128) < u128::MAX) by (nonlinear_arith)
                        requires
                            wsum <= wcnt * (usize::MAX as u128),
                            q as u128 <= usize::MAX as u128,
                            wcnt <= usize::MAX as u128,
                    ;
                }
                wsum = wsum + (q as u128);
                wcnt = wcnt + 1;
            }
            q += 1;
        }

        let outputs = match graph.number_of_outputs(node) {
            Ok(o) => o,
            Err(_) => {
                proof {
                    assert(false);
                }
                return Err(FromHyperError::EmptyGraph);
            }
        };
        let mut addr = clone_index_vec(prefix);
        addr.push(node);
        let data = match graph.get(node) {
            Ok(d) => d,
            Err(_) => {
                proof {
                    assert(false);
                }
                return Err(FromHyperError::EmptyGraph);
            }
        };
        let op: Option<MonoidalWiredOp<E>> = match data {
            Node::Weight(w) => {
                let inp = match graph.get_inputs(node) {
                    Ok(v) => clone_port_vec(v),
                    Err(_) => {
                        proof {
                            assert(false);
                        }
                        return Err(FromHyperError::EmptyGraph);
                    }
                };
                Some(MonoidalWiredOp::Operation { inputs: inp, op_name: *w })
            }
            Node::Input => None,
            Node::Output => {
                proof {
                    if r == k {
                    } else {
                        assert(graph.is_interior(node.0 as int));
                    }
                    assert(false);
                }
                return Err(FromHyperError::EmptyGraph);
            }
            Node::Thunk { args, body } => {
                proof {
                    lemma_body_decreases(*graph, node.0 as int);
                }
                let sub = MonoidalWiredGraph::<E>::from_hypergraph(body, addr.as_slice());
                let b = match sub {
                    Ok(b) => b,
                    Err(e) => {
                        proof {
                            assert(!graph.lowerable());
                        }
                        return Err(e);
                    }
                };
                let inp = match graph.get_inputs(node) {
                    Ok(v) => clone_port_vec(v),
                    Err(_) => {
                        proof {
                            assert(false);
                        }
                        return Err(FromHyperError::EmptyGraph);
                    }
                };
                Some(MonoidalWiredOp::Thunk { inputs: inp, args: *args, body: b })
            }
        };
        let new_op = RankOp { op, outputs, addr, node, wsum, wcnt };
        proof {
            assert(rank_op_ok(*graph, rk, r, prefix@, new_op)) by {
                assert(rk[r][t as int] == node);
                assert(rk[r].contains(node));
                assert(addr@ == prefix@.push(node));
                match graph.node_data(node.0 as int) {
                    Node::Input => {}
                    Node::Output => {
                        assert(false);
                    }
                    Node::Weight(wname) => {
                        assert(graph.is_interior(node.0 as int));
                        assert(graph.node_outputs(node.0 as int).len() == 1);
                    }
                    Node::Thunk { args: nargs, body: nbody } => {
                        assert(graph.is_interior(node.0 as int));
                        assert(graph.node_outputs(node.0 as int).len() == 1);
                        assert(nargs + graph.node_inputs(node.0 as int).len()
                            == nbody.input_wires());
                    }
                }
            }
        }
        let ghost pre_push = ops@;
        ops.push(new_op);
        proof {
            assert forall|t2: int| 0 <= t2 < open_wires@.len() implies rk[r].contains(
                (#[trigger] open_wires@[t2]).node,
            ) || id_covered(open_wires@[t2], ops@) by {
                if !rk[r].contains(open_wires@[t2].node) {
                    assert(id_covered(open_wires@[t2], pre_push));
                    let q0 = choose|q0: int|
                        0 <= q0 < pre_push.len() && (#[trigger] pre_push[q0]).op == Some(
                            MonoidalWiredOp::<E>::Id { port: open_wires@[t2] },
                        );
                    assert(ops@[q0].op == Some(
                        MonoidalWiredOp::<E>::Id { port: open_wires@[t2] },
                    ));
                    assert(id_covered(open_wires@[t2], ops@));
                }
            }
            assert(rank_id_cover(rk, r, open_wires@, ops@));
        }
        t += 1;
    }

    // Order the rank's operations by demanded position (the built-in
    // heuristic; the boundary rank keeps its given order).
    let ghost pre_sort = ops@;
    if !final_rank {
        ops = order_rank_ops(ops);
        proof {
            lemma_reorder_transfer(
                pre_sort,
                ops@,
                |o: RankOp<E>| rank_op_ok(*graph, rk, r, prefix@, o),
            );
            lemma_reorder_transfer(
                pre_sort,
                ops@,
                |o: RankOp<E>| o.wcnt <= usize::MAX as u128,
            );
            assert forall|t2: int| 0 <= t2 < open_wires@.len() implies rk[r].contains(
                (#[trigger] open_wires@[t2]).node,
            ) || id_covered(open_wires@[t2], ops@) by {
                if !rk[r].contains(open_wires@[t2].node) {
                    assert(id_covered(open_wires@[t2], pre_sort));
                    let q0 = choose|q0: int|
                        0 <= q0 < pre_sort.len() && (#[trigger] pre_sort[q0]).op == Some(
                            MonoidalWiredOp::<E>::Id { port: open_wires@[t2] },
                        );
                    lemma_reorder_member(pre_sort, ops@, pre_sort[q0]);
                    let q2 = choose|q2: int| 0 <= q2 < ops@.len() && ops@[q2] == pre_sort[q0];
                    assert(ops@[q2].op == Some(MonoidalWiredOp::<E>::Id { port: open_wires@[t2] }));
                    assert(id_covered(open_wires@[t2], ops@));
                }
            }
            assert(rank_id_cover(rk, r, open_wires@, ops@));
            assert forall|u: int| #![trigger rk[r][u]] 0 <= u < rk[r].len() implies node_covered(
                rk[r][u],
                ops@,
            ) by {
                let v = pre_sort[id_count + u];
                assert(v.node == rk[r][u]);
                assert(!(v.op matches Some(MonoidalWiredOp::Id { port })));
                assert(pre_sort.contains(v));
                lemma_reorder_member(pre_sort, ops@, v);
                let q3 = choose|q3: int| 0 <= q3 < ops@.len() && ops@[q3] == v;
                assert(ops@[q3].node == rk[r][u]);
                assert(!(ops@[q3].op matches Some(MonoidalWiredOp::Id { port })));
                assert(node_covered(rk[r][u], ops@));
            }
            assert(rank_node_cover(rk, r, ops@));
            assert(rank_nodes_distinct(pre_sort)) by {
                assert forall|q1: int, q2: int|
                    0 <= q1 < q2 < pre_sort.len() && !((#[trigger] pre_sort[q1]).op matches Some(
                        MonoidalWiredOp::Id { port },
                    )) && !((#[trigger] pre_sort[q2]).op matches Some(MonoidalWiredOp::Id { port }))
                    implies pre_sort[q1].node != pre_sort[q2].node by {
                    assert(q1 >= id_count && q2 >= id_count);
                    assert(pre_sort[id_count + (q1 - id_count)].node == rk[r][q1 - id_count]);
                    assert(pre_sort[id_count + (q2 - id_count)].node == rk[r][q2 - id_count]);
                    assert(rk[r][q1 - id_count].0 < rk[r][q2 - id_count].0);
                }
            }
            lemma_reorder_node_distinct(pre_sort, ops@);
            assert(rank_nodes_distinct(ops@));
        }
    } else {
        proof {
            assert forall|u: int| #![trigger rk[r][u]] 0 <= u < rk[r].len() implies node_covered(
                rk[r][u],
                ops@,
            ) by {
                assert(ops@[id_count + u].node == rk[r][u]);
                assert(!(ops@[id_count + u].op matches Some(MonoidalWiredOp::Id { port })));
                assert(node_covered(rk[r][u], ops@));
            }
            assert(rank_node_cover(rk, r, ops@));
            assert forall|u: int| 0 <= u < ops@.len() implies (#[trigger] ops@[u]).node == rk[k][u]
                && ops@[u].outputs == graph.node_outputs(rk[k][u].0 as int).len() by {
                assert(ops@[id_count + u].node == rk[r][u]);
                assert(ops@[id_count + u].outputs == graph.node_outputs(rk[r][u].0 as int).len());
            }
            assert(rank_aligned(*graph, rk, k, ops@));
            assert(rank_nodes_distinct(ops@)) by {
                assert forall|q1: int, q2: int|
                    0 <= q1 < q2 < ops@.len() && !((#[trigger] ops@[q1]).op matches Some(
                        MonoidalWiredOp::Id { port },
                    )) && !((#[trigger] ops@[q2]).op matches Some(MonoidalWiredOp::Id { port }))
                    implies ops@[q1].node != ops@[q2].node by {
                    assert(q1 >= id_count && q2 >= id_count);
                    assert(ops@[id_count + (q1 - id_count)].node == rk[r][q1 - id_count]);
                    assert(ops@[id_count + (q2 - id_count)].node == rk[r][q2 - id_count]);
                    assert(rk[r][q1 - id_count].0 < rk[r][q2 - id_count].0);
                }
            }
        }
    }
    Ok(ops)
}

/// The out ports contributed by every operation of the list, in order.
spec fn out_ports_cover<E>(ops: Seq<RankOp<E>>, out_ports: Seq<Port>) -> bool {
    forall|q3: int|
        0 <= q3 < ops.len() ==> match (#[trigger] ops[q3]).op {
            Some(MonoidalWiredOp::Id { port }) => out_ports.contains(port),
            _ => forall|w: int|
                0 <= w < ops[q3].outputs ==> #[trigger] out_ports.contains(
                    Port { node: ops[q3].node, index: PortIndex(w as usize) },
                ),
        }
}

/// Enumerates the output ports of a rank's operations in operation order:
/// an identity operation contributes its carried port, any other
/// contributes each output port of its node.
#[verifier::rlimit(100)]
fn build_out_ports<E: Copy>(
    graph: &HyperGraph<E>,
    ops: &Vec<RankOp<E>>,
    Ghost(rk): Ghost<Seq<Seq<NodeIndex>>>,
    Ghost(r): Ghost<int>,
    Ghost(k): Ghost<int>,
    Ghost(prefix): Ghost<Seq<NodeIndex>>,
)  -> (out_ports: Vec<Port>)
    requires
        synth_ctx(*graph, rk, k),
        0 <= r <= k,
        rank_ops_ok(*graph, rk, r, prefix, ops@),
        r == k ==> rank_aligned(*graph, rk, k, ops@),
    ensures
        out_ports_cover(ops@, out_ports@),
        r < k ==> out_ports@.len() == ops@.len(),
        r == k ==> out_ports@.len() == graph.input_wires(),
{
    let mut out_ports: Vec<Port> = Vec::new();
    let mut q2: usize = 0;
    proof {
        if r == k {
            assert(rk[k].take(0) =~= Seq::<NodeIndex>::empty());
            assert(sum_outs_of_list(*graph, rk[k].take(0)) == 0);
        }
    }
    while q2 < ops.len()
        invariant
            synth_ctx(*graph, rk, k),
            0 <= r <= k,
            rank_ops_ok(*graph, rk, r, prefix, ops@),
            r == k ==> rank_aligned(*graph, rk, k, ops@),
            q2 <= ops@.len(),
            out_ports_cover(ops@.take(q2 as int), out_ports@),
            r < k ==> out_ports@.len() == q2,
            r == k ==> out_ports@.len() == sum_outs_of_list(*graph, rk[k].take(q2 as int)),
        decreases ops@.len() - q2,
    {
        proof {
            assert(rank_op_ok(*graph, rk, r, prefix, ops@[q2 as int]));
        }
        let is_id = matches!(&ops[q2].op, Some(MonoidalWiredOp::Id { .. }));
        if is_id {
            let port = match &ops[q2].op {
                Some(MonoidalWiredOp::Id { port }) => *port,
                _ => {
                    proof {
                        assert(false);
                    }
                    Port { node: NodeIndex(0), index: PortIndex(0) }
                }
            };
            out_ports.push(port);
            proof {
                if r == k {
                    assert(false);
                }
            }
        } else {
            let node = ops[q2].node;
            let outs = ops[q2].outputs;
            let ghost base = out_ports@.len();
            let mut w: usize = 0;
            while w < outs
                invariant
                    w <= outs,
                    out_ports@.len() == base + w,
                    forall|w2: int|
                        0 <= w2 < w ==> #[trigger] out_ports@.contains(
                            Port { node, index: PortIndex(w2 as usize) },
                        ),
                    out_ports_cover(ops@.take(q2 as int), out_ports@),
                decreases outs - w,
            {
                out_ports.push(Port { node, index: PortIndex(w) });
                w += 1;
            }
            proof {
                if r < k {
                    assert(outs == 1);
                } else {
                    assert(rk[k].take(q2 + 1).drop_last() =~= rk[k].take(q2 as int));
                    assert(rk[k].take(q2 + 1).last() == rk[k][q2 as int]);
                }
            }
        }
        proof {
            assert forall|q3: int| 0 <= q3 < q2 + 1 implies match (#[trigger] ops@.take(q2 + 1)[q3]).op {
                Some(MonoidalWiredOp::Id { port }) => out_ports@.contains(port),
                _ => forall|w: int|
                    0 <= w < ops@.take(q2 + 1)[q3].outputs ==> #[trigger] out_ports@.contains(
                        Port { node: ops@.take(q2 + 1)[q3].node, index: PortIndex(w as usize) },
                    ),
            } by {
                assert(ops@.take(q2 + 1)[q3] == ops@[q3]);
                if q3 < q2 {
                    assert(ops@.take(q2 as int)[q3] == ops@[q3]);
                }
            }
        }
        q2 += 1;
    }
    proof {
        assert(ops@.take(ops@.len() as int) =~= ops@);
        if r == k {
            assert(rk[k].take(rk[k].len() as int) =~= rk[k]);
            lemma_input_list_sum(*graph, rk[k], graph.node_count() as int);
        }
    }
    out_ports
}

/// Routes every open wire of the rank to its producing port among the
/// rank's out ports.
#[verifier::rlimit(100)]
fn build_rank_wiring<E: Copy>(
    graph: &HyperGraph<E>,
    ops: &Vec<RankOp<E>>,
    out_ports: &Vec<Port>,
    open_wires: &Vec<Port>,
    Ghost(rk): Ghost<Seq<Seq<NodeIndex>>>,
    Ghost(r): Ghost<int>,
    Ghost(k): Ghost<int>,
    Ghost(prefix): Ghost<Seq<NodeIndex>>,
) -> (wiring: Wiring)
    requires
        synth_ctx(*graph, rk, k),
        0 <= r <= k,
        opens_ok(*graph, rk, r, open_wires@),
        rank_ops_built(*graph, rk, r, k, prefix, open_wires@, ops@),
        out_ports_cover(ops@, out_ports@),
    ensures
        wiring.wf(),
        wiring.forward_len() == out_ports@.len(),
        wiring.backward_len() == open_wires@.len(),
{
    let mut wiring = Wiring::new(out_ports.len());
    let mut m2: usize = 0;
    while m2 < open_wires.len()
        invariant
            synth_ctx(*graph, rk, k),
            0 <= r <= k,
            opens_ok(*graph, rk, r, open_wires@),
            rank_ops_built(*graph, rk, r, k, prefix, open_wires@, ops@),
            out_ports_cover(ops@, out_ports@),
            m2 <= open_wires@.len(),
            wiring.wf(),
            wiring.forward_len() == out_ports@.len(),
            wiring.backward_len() == m2,
        decreases open_wires@.len() - m2,
    {
        let p = open_wires[m2];
        proof {
            assert(out_ports@.contains(p)) by {
                if rk[r].contains(p.node) {
                    let u = choose|u: int| 0 <= u < rk[r].len() && #[trigger] rk[r][u] == p.node;
                    assert(node_covered(rk[r][u], ops@));
                    let q3 = choose|q3: int|
                        0 <= q3 < ops@.len() && (#[trigger] ops@[q3]).node == rk[r][u] && !(
                        ops@[q3].op matches Some(MonoidalWiredOp::Id { port }));
                    assert(rank_op_ok(*graph, rk, r, prefix, ops@[q3]));
                    assert(ops@[q3].outputs == graph.node_outputs(p.node.0 as int).len()) by {
                        match ops@[q3].op {
                            Some(w2) => {
                                match w2 {
                                    MonoidalWiredOp::Id { port } => {
                                        assert(false);
                                    }
                                    _ => {}
                                }
                            }
                            None => {}
                        }
                    }
                    assert(graph.valid_out_port(p));
                    assert(p.index.0 < ops@[q3].outputs);
                    assert(!(ops@[q3].op matches Some(MonoidalWiredOp::Id { port })));
                    assert(out_ports@.contains(
                        Port { node: ops@[q3].node, index: PortIndex((p.index.0 as int) as usize) },
                    ));
                    assert(out_ports@.contains(Port { node: p.node, index: PortIndex(p.index.0) }));
                    assert(Port { node: p.node, index: PortIndex(p.index.0) } == p);
                } else {
                    assert(id_covered(p, ops@));
                    let q3 = choose|q3: int|
                        0 <= q3 < ops@.len() && (#[trigger] ops@[q3]).op == Some(
                            MonoidalWiredOp::<E>::Id { port: p },
                        );
                    assert(out_ports@.contains(p));
                }
            }
        }
        let pos = match find_port(out_ports, p) {
            Some(pos) => pos,
            None => {
                proof {
                    assert(false);
                }
                0
            }
        };
        wiring.add_wire(pos);
        m2 += 1;
    }
    wiring
}


/// Every node of rank `r` is addressed by some item of the slice.
spec fn items_cover_rank<E>(
    items: Seq<(MonoidalWiredOp<E>, Vec<NodeIndex>)>,
    prefix: Seq<NodeIndex>,
    rk: Seq<Seq<NodeIndex>>,
    r: int,
) -> bool {
    forall|u: int|
        #![trigger rk[r][u]]
        0 <= u < rk[r].len() ==> exists|m3: int|
            0 <= m3 < items.len() && (#[trigger] items[m3]).1@ == prefix.push(rk[r][u])
}

/// Consumes a rank's operation list into the slice items and the list of
/// ports those operations demand — the open wires of the next rank.
#[verifier::rlimit(100)]
fn consume_rank_ops<E: Copy>(
    graph: &HyperGraph<E>,
    ops: Vec<RankOp<E>>,
    Ghost(rk): Ghost<Seq<Seq<NodeIndex>>>,
    Ghost(r): Ghost<int>,
    Ghost(k): Ghost<int>,
    Ghost(prefix): Ghost<Seq<NodeIndex>>,
) -> (pair: (Vec<(MonoidalWiredOp<E>, Vec<NodeIndex>)>, Vec<Port>))
    requires
        synth_ctx(*graph, rk, k),
        0 <= r <= k,
        rank_ops_ok(*graph, rk, r, prefix, ops@),
        rank_node_cover(rk, r, ops@),
        rank_nodes_distinct(ops@),
    ensures
        pair.1@.len() == wired_sum_inputs(
            pair.0@.map_values(|pr: (MonoidalWiredOp<E>, Vec<NodeIndex>)| pr.0),
        ),
        forall|m3: int| 0 <= m3 < pair.0@.len() ==> (#[trigger] pair.0@[m3].0).wired_wf(),
        forall|m3: int|
            0 <= m3 < pair.0@.len() ==> op_represents(
                *graph,
                prefix,
                (#[trigger] pair.0@[m3]).0,
                pair.0@[m3].1@,
            ),
        forall|m3: int|
            0 <= m3 < pair.0@.len() && (#[trigger] pair.0@[m3]).1@.len() != prefix.len() ==> {
                &&& pair.0@[m3].1@.len() == prefix.len() + 1
                &&& rk[r].contains(pair.0@[m3].1@.last())
            },
        r < k ==> items_cover_rank(pair.0@, prefix, rk, r),
        forall|m1: int, m2: int|
            0 <= m1 < m2 < pair.0@.len() && (#[trigger] pair.0@[m1]).1@.len() != prefix.len()
                ==> pair.0@[m1].1@ != (#[trigger] pair.0@[m2]).1@,
        opens_ok(*graph, rk, r + 1, pair.1@),
        r < k ==> pair.0@.len() == ops@.len(),
{
    let mut ops = ops;
    let ghost orig_ops = ops@;
    let ghost total_ops = ops@.len();
    let mut items: Vec<(MonoidalWiredOp<E>, Vec<NodeIndex>)> = Vec::new();
    let mut new_opens: Vec<Port> = Vec::new();
    proof {
        assert(items@.map_values(|pr: (MonoidalWiredOp<E>, Vec<NodeIndex>)| pr.0)
            =~= Seq::<MonoidalWiredOp<E>>::empty());
        assert(orig_ops.skip(0) =~= orig_ops);
    }
    while ops.len() > 0
        invariant
            synth_ctx(*graph, rk, k),
            0 <= r <= k,
            rank_ops_ok(*graph, rk, r, prefix, ops@),
            orig_ops.len() == total_ops,
            rank_nodes_distinct(orig_ops),
            ops@.len() <= total_ops,
            ops@ == orig_ops.skip(total_ops - ops@.len()),
            forall|q: int|
                0 <= q < total_ops - ops@.len() && (#[trigger] orig_ops[q]).op is Some && !(
                orig_ops[q].op matches Some(MonoidalWiredOp::Id { port })) ==> exists|m3: int|
                    0 <= m3 < items@.len() && (#[trigger] items@[m3]).1@ == orig_ops[q].addr@,
            forall|m3: int|
                0 <= m3 < items@.len() ==> op_represents(
                    *graph,
                    prefix,
                    (#[trigger] items@[m3]).0,
                    items@[m3].1@,
                ),
            forall|m3: int|
                0 <= m3 < items@.len() && (#[trigger] items@[m3]).1@.len() != prefix.len() ==> {
                    &&& items@[m3].1@.len() == prefix.len() + 1
                    &&& rk[r].contains(items@[m3].1@.last())
                },
            forall|m3: int|
                0 <= m3 < items@.len() && (#[trigger] items@[m3]).1@.len() != prefix.len()
                    ==> exists|q: int|
                    0 <= q < total_ops - ops@.len() && !((#[trigger] orig_ops[q]).op matches Some(
                        MonoidalWiredOp::Id { port },
                    )) && items@[m3].1@ == orig_ops[q].addr@ && orig_ops[q].addr@ == prefix.push(
                        orig_ops[q].node,
                    ),
            forall|m1: int, m2: int|
                0 <= m1 < m2 < items@.len() && (#[trigger] items@[m1]).1@.len() != prefix.len()
                    ==> items@[m1].1@ != (#[trigger] items@[m2]).1@,
            r < k ==> items@.len() + ops@.len() == total_ops,
            new_opens@.len() == wired_sum_inputs(
                items@.map_values(|pr: (MonoidalWiredOp<E>, Vec<NodeIndex>)| pr.0),
            ),
            forall|m3: int| 0 <= m3 < items@.len() ==> (#[trigger] items@[m3].0).wired_wf(),
            opens_ok(*graph, rk, r + 1, new_opens@),
        decreases ops@.len(),
    {
        let ghost pre_ops2 = ops@;
        let ghost consumed = total_ops - pre_ops2.len();
        let o = ops.remove(0);
        proof {
            assert(o == pre_ops2[0]);
            assert(pre_ops2 == orig_ops.skip(consumed));
            assert(orig_ops[consumed] == o) by {
                assert(orig_ops.skip(consumed)[0] == orig_ops[consumed]);
                assert(pre_ops2[0] == orig_ops.skip(consumed)[0]);
            }
            assert(ops@ =~= orig_ops.skip(consumed + 1)) by {
                assert forall|q3: int| 0 <= q3 < ops@.len() implies ops@[q3] == orig_ops.skip(
                    consumed + 1,
                )[q3] by {
                    assert(ops@[q3] == pre_ops2[q3 + 1]);
                    assert(pre_ops2[q3 + 1] == orig_ops.skip(consumed)[q3 + 1]);
                    assert(orig_ops.skip(consumed)[q3 + 1] == orig_ops[consumed + q3 + 1]);
                    assert(orig_ops.skip(consumed + 1)[q3] == orig_ops[consumed + 1 + q3]);
                }
            }
            assert(rank_op_ok(*graph, rk, r, prefix, o));
            assert forall|q3: int| 0 <= q3 < ops@.len() implies rank_op_ok(
                *graph,
                rk,
                r,
                prefix,
                #[trigger] ops@[q3],
            ) by {
                assert(ops@[q3] == pre_ops2[q3 + 1]);
            }
        }
        match o.op {
            Some(w) => {
                let ports = w.input_ports();
                proof {
                    match w {
                        MonoidalWiredOp::Id { port } => {}
                        MonoidalWiredOp::Operation { .. } | MonoidalWiredOp::Thunk { .. } => {
                            assert(0 <= r < k) by {
                                if r == k {
                                    assert(graph.is_interior(o.node.0 as int));
                                    let u = choose|u: int|
                                        0 <= u < rk[k].len() && rk[k][u] == o.node;
                                    assert(false);
                                }
                            }
                            lemma_producer_later(*graph, rk.take(k), r, o.node.0 as int, k);
                        }
                    }
                    // provenance of the ports this operation demands
                    assert forall|ki: int| 0 <= ki < ports@.len() implies {
                        let p = #[trigger] ports@[ki];
                        &&& graph.valid_out_port(p)
                        &&& exists|j: int|
                            r + 1 <= j < rk.len() && (#[trigger] rk[j]).contains(p.node)
                    } by {
                        match w {
                            MonoidalWiredOp::Id { port } => {
                                assert(ports@[ki] == port);
                            }
                            MonoidalWiredOp::Operation { .. } | MonoidalWiredOp::Thunk { .. } => {
                                let p = ports@[ki];
                                assert(p == graph.node_inputs(o.node.0 as int)[ki]);
                                if graph.node_data(p.node.0 as int) is Input {
                                    assert(rk[k].contains(NodeIndex(p.node.0 as int as usize)));
                                    assert(NodeIndex(p.node.0 as int as usize) == p.node);
                                    assert(r + 1 <= k);
                                } else {
                                    let j = choose|j: int|
                                        r < j < rk.take(k).len() && (#[trigger] rk.take(k)[j]).contains(
                                            p.node,
                                        );
                                    assert(rk[j].contains(p.node));
                                }
                            }
                        }
                    }
                }
                let ghost pre_no = new_opens@;
                let mut w2: usize = 0;
                while w2 < ports.len()
                    invariant
                        w2 <= ports@.len(),
                        new_opens@ == pre_no + ports@.take(w2 as int),
                    decreases ports@.len() - w2,
                {
                    new_opens.push(ports[w2]);
                    proof {
                        assert(pre_no + ports@.take(w2 + 1) =~= (pre_no + ports@.take(
                            w2 as int,
                        )).push(ports@[w2 as int]));
                    }
                    w2 += 1;
                }
                proof {
                    assert(ports@.take(ports@.len() as int) =~= ports@);
                    assert(new_opens@ == pre_no + ports@);
                    assert forall|m4: int| 0 <= m4 < new_opens@.len() implies {
                        let p = #[trigger] new_opens@[m4];
                        &&& graph.valid_out_port(p)
                        &&& exists|j: int|
                            r + 1 <= j < rk.len() && (#[trigger] rk[j]).contains(p.node)
                    } by {
                        if m4 < pre_no.len() {
                            assert(new_opens@[m4] == pre_no[m4]);
                        } else {
                            assert(new_opens@[m4] == ports@[m4 - pre_no.len()]);
                        }
                    }
                    let ghost new_ops_seq = items@.push((w, o.addr)).map_values(
                        |pr: (MonoidalWiredOp<E>, Vec<NodeIndex>)| pr.0,
                    );
                    assert(new_ops_seq =~= items@.map_values(
                        |pr: (MonoidalWiredOp<E>, Vec<NodeIndex>)| pr.0,
                    ).push(w));
                    lemma_wired_sum_push(
                        items@.map_values(|pr: (MonoidalWiredOp<E>, Vec<NodeIndex>)| pr.0),
                        w,
                    );
                }
                let ghost pre_items = items@;
                items.push((w, o.addr));
                proof {
                    assert(items@[items@.len() - 1] == (w, o.addr));
                    // the pushed item presents its addressed node faithfully
                    assert(op_represents(*graph, prefix, w, o.addr@)) by {
                        match w {
                            MonoidalWiredOp::Id { port } => {}
                            MonoidalWiredOp::Operation { .. } | MonoidalWiredOp::Thunk { .. } => {
                                assert(o.addr@ == prefix.push(o.node));
                                assert(prefix.push(o.node).take(prefix.len() as int) =~= prefix);
                                assert(prefix.push(o.node).last() == o.node);
                            }
                        }
                    }
                    assert forall|m3: int|
                        0 <= m3 < items@.len() && (#[trigger] items@[m3]).1@.len() != prefix.len()
                        implies {
                        &&& items@[m3].1@.len() == prefix.len() + 1
                        &&& rk[r].contains(items@[m3].1@.last())
                    } by {
                        if m3 < pre_items.len() {
                            assert(items@[m3] == pre_items[m3]);
                        } else {
                            match w {
                                MonoidalWiredOp::Id { port } => {
                                    assert(o.addr@ == prefix);
                                }
                                MonoidalWiredOp::Operation { .. }
                                | MonoidalWiredOp::Thunk { .. } => {
                                    assert(o.addr@ == prefix.push(o.node));
                                    assert(prefix.push(o.node).last() == o.node);
                                }
                            }
                        }
                    }
                    assert forall|q: int|
                        0 <= q < total_ops - ops@.len() && (#[trigger] orig_ops[q]).op is Some
                            && !(orig_ops[q].op matches Some(MonoidalWiredOp::Id { port }))
                        implies exists|m3: int|
                        0 <= m3 < items@.len() && (#[trigger] items@[m3]).1@ == orig_ops[q].addr@ by {
                        if q < consumed {
                            let m0 = choose|m0: int|
                                0 <= m0 < pre_items.len() && (#[trigger] pre_items[m0]).1@
                                    == orig_ops[q].addr@;
                            assert(items@[m0].1@ == orig_ops[q].addr@);
                        } else {
                            assert(q == consumed);
                            assert(items@[items@.len() - 1].1@ == orig_ops[q].addr@);
                        }
                    }
                    assert forall|m3: int|
                        0 <= m3 < items@.len() && (#[trigger] items@[m3]).1@.len() != prefix.len()
                        implies exists|q: int|
                        0 <= q < total_ops - ops@.len() && !((#[trigger] orig_ops[q]).op
                            matches Some(MonoidalWiredOp::Id { port })) && items@[m3].1@
                            == orig_ops[q].addr@ && orig_ops[q].addr@ == prefix.push(
                            orig_ops[q].node,
                        ) by {
                        if m3 < pre_items.len() {
                            assert(items@[m3] == pre_items[m3]);
                            let q0 = choose|q0: int|
                                0 <= q0 < consumed && !((#[trigger] orig_ops[q0]).op matches Some(
                                    MonoidalWiredOp::Id { port },
                                )) && pre_items[m3].1@ == orig_ops[q0].addr@ && orig_ops[q0].addr@
                                    == prefix.push(orig_ops[q0].node);
                            assert(0 <= q0 < total_ops - ops@.len());
                        } else {
                            match w {
                                MonoidalWiredOp::Id { port } => {
                                    assert(o.addr@ == prefix);
                                    assert(false);
                                }
                                MonoidalWiredOp::Operation { .. }
                                | MonoidalWiredOp::Thunk { .. } => {
                                    assert(o.addr@ == prefix.push(o.node));
                                    assert(orig_ops[consumed] == o);
                                    assert(!(orig_ops[consumed].op matches Some(
                                        MonoidalWiredOp::Id { port },
                                    )));
                                }
                            }
                        }
                    }
                    assert forall|m1: int, m2: int|
                        0 <= m1 < m2 < items@.len() && (#[trigger] items@[m1]).1@.len()
                            != prefix.len() implies items@[m1].1@ != (
                    #[trigger] items@[m2]).1@ by {
                        if m2 < pre_items.len() {
                            assert(items@[m1] == pre_items[m1] && items@[m2] == pre_items[m2]);
                        } else {
                            assert(items@[m1] == pre_items[m1]);
                            if items@[m1].1@ == items@[m2].1@ {
                                // both addresses name nodes of pairwise
                                // distinct operations
                                let q1 = choose|q1: int|
                                    0 <= q1 < consumed && !((#[trigger] orig_ops[q1]).op
                                        matches Some(MonoidalWiredOp::Id { port }))
                                        && pre_items[m1].1@ == orig_ops[q1].addr@
                                        && orig_ops[q1].addr@ == prefix.push(orig_ops[q1].node);
                                match w {
                                    MonoidalWiredOp::Id { port } => {
                                        assert(o.addr@ == prefix);
                                        assert(items@[m2].1@ == prefix);
                                        assert(items@[m1].1@.len() == prefix.len() + 1);
                                        assert(false);
                                    }
                                    MonoidalWiredOp::Operation { .. }
                                    | MonoidalWiredOp::Thunk { .. } => {
                                        assert(items@[m2].1@ == prefix.push(o.node));
                                        assert(orig_ops[consumed] == o);
                                        assert(!((orig_ops[q1]).op matches Some(
                                            MonoidalWiredOp::Id { port },
                                        )));
                                        assert(!((orig_ops[consumed]).op matches Some(
                                            MonoidalWiredOp::Id { port },
                                        )));
                                        assert(q1 < consumed);
                                        assert(orig_ops[q1].node != orig_ops[consumed].node);
                                        assert(prefix.push(orig_ops[q1].node).last()
                                            == orig_ops[q1].node);
                                        assert(prefix.push(o.node).last() == o.node);
                                        assert(false);
                                    }
                                }
                            }
                        }
                    }
                }
            }
            None => {
                proof {
                    assert(r == k) by {
                        if r < k {
                            assert(graph.node_data(o.node.0 as int) is Input);
                            let u = choose|u: int| 0 <= u < rk[r].len() && rk[r][u] == o.node;
                            assert(graph.is_interior(rk[r][u].0 as int));
                            assert(false);
                        }
                    }
                }
            }
        }
    }
    proof {
        if r < k {
            assert forall|u: int| #![trigger rk[r][u]] 0 <= u < rk[r].len() implies exists|m3: int|
                0 <= m3 < items@.len() && (#[trigger] items@[m3]).1@ == prefix.push(rk[r][u]) by {
                assert(node_covered(rk[r][u], orig_ops));
                let q = choose|q: int|
                    0 <= q < orig_ops.len() && (#[trigger] orig_ops[q]).node == rk[r][u] && !(
                    orig_ops[q].op matches Some(MonoidalWiredOp::Id { port }));
                assert(rank_op_ok(*graph, rk, r, prefix, orig_ops[q]));
                match orig_ops[q].op {
                    Some(w) => {
                        assert(orig_ops[q].addr@ == prefix.push(orig_ops[q].node));
                        assert(orig_ops[q].op is Some);
                        assert(0 <= q < total_ops - ops@.len());
                        let m3 = choose|m3: int|
                            0 <= m3 < items@.len() && (#[trigger] items@[m3]).1@
                                == orig_ops[q].addr@;
                        assert(items@[m3].1@ == prefix.push(rk[r][u]));
                        assert(exists|m4: int|
                            0 <= m4 < items@.len() && (#[trigger] items@[m4]).1@ == prefix.push(
                                rk[r][u],
                            ));
                    }
                    None => {
                        // boundary nodes live only in the final rank
                        assert(graph.node_data(orig_ops[q].node.0 as int) is Input);
                        assert(graph.is_interior(rk[r][u].0 as int));
                        assert(false);
                    }
                }
            }
            assert(items_cover_rank(items@, prefix, rk, r));
        }
    }
    (items, new_opens)
}


/// Every operation of every slice faithfully presents its addressed node.
pub open spec fn slices_represent<E>(
    g: HyperGraph<E>,
    prefix: Seq<NodeIndex>,
    wslices: Seq<WiredSlice<E>>,
) -> bool {
    forall|j: int, m: int|
        0 <= j < wslices.len() && 0 <= m < wslices[j].ops@.len() ==> op_represents(
            g,
            prefix,
            (#[trigger] wslices[j].ops@[m]).0,
            wslices[j].ops@[m].1@,
        )
}

/// No node is presented by operations of two different slices.
pub open spec fn slices_nodes_unique<E>(prefix: Seq<NodeIndex>, wslices: Seq<WiredSlice<E>>) -> bool {
    forall|j1: int, j2: int, m1: int, m2: int|
        0 <= j1 < j2 < wslices.len() && 0 <= m1 < wslices[j1].ops@.len() && 0 <= m2
            < wslices[j2].ops@.len() && (#[trigger] wslices[j1].ops@[m1]).1@.len() != prefix.len()
            ==> wslices[j1].ops@[m1].1@ != (#[trigger] wslices[j2].ops@[m2]).1@
}

/// Within one slice, no two operations address the same node.
pub open spec fn slices_unique_within<E>(prefix: Seq<NodeIndex>, wslices: Seq<WiredSlice<E>>) -> bool {
    forall|j: int, m1: int, m2: int|
        0 <= j < wslices.len() && 0 <= m1 < m2 < wslices[j].ops@.len()
            && (#[trigger] wslices[j].ops@[m1]).1@.len() != prefix.len()
            ==> wslices[j].ops@[m1].1@ != (#[trigger] wslices[j].ops@[m2]).1@
}

/// Every interior node of the graph is presented by some slice.
pub open spec fn slices_cover_graph<E>(
    g: HyperGraph<E>,
    prefix: Seq<NodeIndex>,
    wslices: Seq<WiredSlice<E>>,
) -> bool {
    forall|i: int|
        g.is_interior(i) ==> node_in_slices(wslices, prefix, NodeIndex(i as usize))
}

impl<E: Copy> MonoidalWiredGraph<E> {
    /// Lowers one level of a hypergraph into the wired monoidal form,
    /// working from the output boundary backward through the ranks of
    /// `ranks_from_end`: per rank it emits a wiring layer routing the open
    /// wires to their producing ports and a slice of the rank's operations
    /// (thunks synthesised recursively), then reverses the accumulated
    /// layers into top-to-bottom reading order.  Fails with `EmptyGraph`
    /// exactly when some level, this one or a nested thunk body, has no
    /// interior node to lower.
    #[verifier::rlimit(100)]
    pub fn from_hypergraph(graph: &HyperGraph<E>, prefix: &[NodeIndex]) -> (r: Result<
        Self,
        FromHyperError,
    >)
        requires
            graph.wf(),
            graph.synth_wf(),
        ensures
            r matches Ok(m) ==> {
                &&& m.wired_wf()
                &&& m.inputs == graph.input_wires()
                &&& m.wirings@.len() == m.slices@.len() + 1
                &&& slices_represent(*graph, prefix@, m.slices@)
                &&& slices_cover_graph(*graph, prefix@, m.slices@)
                &&& slices_nodes_unique(prefix@, m.slices@)
                &&& slices_unique_within(prefix@, m.slices@)
            },
            (r is Ok) <==> graph.lowerable(),
            r is Err ==> r == Err::<Self, FromHyperError>(FromHyperError::EmptyGraph),
        decreases *graph, 1int,
    {
        let n = graph.len();
        if !graph.has_interior() {
            return Err(FromHyperError::EmptyGraph);
        }
        let input_wires = graph.count_input_wires();

        let (inputs_list, ranks_vec, outputs_list) = graph.ranks_from_end();
        let ghost irk = ranks_vec@.map_values(|v: Vec<NodeIndex>| v@);
        let ghost ilist = inputs_list@;
        let mut all_ranks = ranks_vec;
        all_ranks.push(inputs_list);
        let ghost rk = all_ranks@.map_values(|v: Vec<NodeIndex>| v@);
        let ghost k = irk.len() as int;
        proof {
            assert(rk =~= irk.push(ilist));
            assert(rk.take(k) =~= irk);
            assert(rk[k] == ilist);
            assert(synth_ctx(*graph, rk, k));
        }

        // The initial open wires: the ports feeding the Output nodes, in
        // boundary order.
        let mut open_wires: Vec<Port> = Vec::new();
        let mut oi: usize = 0;
        while oi < outputs_list.len()
            invariant
                synth_ctx(*graph, rk, k),
                oi <= outputs_list@.len(),
                forall|m: int| 0 <= m < outputs_list@.len() ==> (#[trigger] outputs_list@[m]).0
                    < graph.node_count() && graph.node_data(outputs_list@[m].0 as int) is Output,
                opens_ok(*graph, rk, 0, open_wires@),
            decreases outputs_list@.len() - oi,
        {
            let onode = outputs_list[oi];
            let inps = match graph.get_inputs(onode) {
                Ok(v) => v,
                Err(_) => {
                    proof {
                        assert(false);
                    }
                    return Err(FromHyperError::EmptyGraph);
                }
            };
            let mut wi: usize = 0;
            while wi < inps.len()
                invariant
                    synth_ctx(*graph, rk, k),
                    wi <= inps@.len(),
                    onode.0 < graph.node_count(),
                    inps@ == graph.node_inputs(onode.0 as int),
                    opens_ok(*graph, rk, 0, open_wires@),
                decreases inps@.len() - wi,
            {
                let p = inps[wi];
                proof {
                    assert(graph.node_wf(onode.0 as int));
                    assert(graph.valid_out_port(p));
                    let sn = p.node.0 as int;
                    assert(graph.node_wf(sn));
                    assert(!(graph.node_data(sn) is Output));
                    if graph.node_data(sn) is Input {
                        assert(rk[k].contains(NodeIndex(sn as usize)));
                        assert(NodeIndex(sn as usize) == p.node);
                    } else {
                        assert(graph.is_interior(sn));
                        assert(in_ranks(rk.take(k), sn));
                        let j = choose|j: int|
                            0 <= j < rk.take(k).len() && #[trigger] rk.take(k)[j].contains(
                                NodeIndex(sn as usize),
                            );
                        assert(rk[j].contains(p.node));
                    }
                }
                open_wires.push(p);
                wi += 1;
            }
            oi += 1;
        }

        let mut slices_acc: Vec<WiredSlice<E>> = Vec::new();
        let mut wirings_acc: Vec<Wiring> = Vec::new();

        let mut r: usize = 0;
        while r < all_ranks.len()
            invariant
                synth_ctx(*graph, rk, k),
                all_ranks@.len() == k + 1,
                rk == all_ranks@.map_values(|v: Vec<NodeIndex>| v@),
                input_wires == graph.input_wires(),
                r <= k + 1,
                wirings_acc@.len() == r,
                slices_acc@.len() == (if r <= k { r as int } else { k }),
                forall|j: int| 0 <= j < wirings_acc@.len() ==> (#[trigger] wirings_acc@[j]).wf(),
                forall|j: int|
                    1 <= j < wirings_acc@.len() ==> (#[trigger] wirings_acc@[j]).backward_len()
                        == slices_acc@[j - 1].spec_inputs(),
                forall|j: int|
                    0 <= j < slices_acc@.len() ==> (#[trigger] wirings_acc@[j]).forward_len()
                        == slices_acc@[j].spec_outputs(),
                r == k + 1 ==> wirings_acc@[k].forward_len() == graph.input_wires(),
                opens_ok(*graph, rk, r as int, open_wires@),
                1 <= r <= k ==> open_wires@.len() == slices_acc@[r - 1].spec_inputs(),
                forall|j: int, m: int|
                    0 <= j < slices_acc@.len() && 0 <= m < slices_acc@[j].ops@.len()
                        ==> (#[trigger] slices_acc@[j].ops@[m].0).wired_wf(),
                slices_represent(*graph, prefix@, slices_acc@),
                forall|j: int, m: int|
                    0 <= j < slices_acc@.len() && 0 <= m < slices_acc@[j].ops@.len()
                        && (#[trigger] slices_acc@[j].ops@[m]).1@.len() != prefix@.len() ==> {
                        &&& slices_acc@[j].ops@[m].1@.len() == prefix@.len() + 1
                        &&& rk[j].contains(slices_acc@[j].ops@[m].1@.last())
                    },
                forall|j: int|
                    0 <= j < slices_acc@.len() ==> items_cover_rank(
                        (#[trigger] slices_acc@[j]).ops@,
                        prefix@,
                        rk,
                        j,
                    ),
                slices_unique_within(prefix@, slices_acc@),
                forall|j: int, m: int|
                    0 <= j < slices_acc@.len() && 0 <= m < rk[j].len()
                        ==> match graph.node_data((#[trigger] rk[j][m]).0 as int) {
                            Node::Thunk { args, body } => body.lowerable(),
                            _ => true,
                        },
            decreases all_ranks@.len() - r,
        {
            let rank_vec = &all_ranks[r];
            proof {
                assert(rank_vec@ == rk[r as int]);
            }
            let final_rank = r == all_ranks.len() - 1;
            let ops = match build_rank_ops(
                graph,
                rank_vec,
                &open_wires,
                prefix,
                final_rank,
                Ghost(rk),
                Ghost(r as int),
                Ghost(k),
            ) {
                Ok(ops) => ops,
                Err(e) => {
                    return Err(e);
                }
            };
            let ghost total_ops = ops@.len();
            proof {
                if r as int == k {
                    assert(rank_aligned(*graph, rk, k, ops@));
                }
            }
            let out_ports = build_out_ports(
                graph,
                &ops,
                Ghost(rk),
                Ghost(r as int),
                Ghost(k),
                Ghost(prefix@),
            );
            let wiring = build_rank_wiring(
                graph,
                &ops,
                &out_ports,
                &open_wires,
                Ghost(rk),
                Ghost(r as int),
                Ghost(k),
                Ghost(prefix@),
            );
            let (items, new_opens) = consume_rank_ops(
                graph,
                ops,
                Ghost(rk),
                Ghost(r as int),
                Ghost(k),
                Ghost(prefix@),
            );
            let ghost this_slice_inputs = wired_sum_inputs(
                items@.map_values(|pr: (MonoidalWiredOp<E>, Vec<NodeIndex>)| pr.0),
            );
            if r < all_ranks.len() - 1 {
                let ws = WiredSlice { ops: items };
                let ghost pre_acc = slices_acc@;
                proof {
                    assert(wired_slice_ops(ws) == ws.ops@.map_values(
                        |pr: (MonoidalWiredOp<E>, Vec<NodeIndex>)| pr.0,
                    ));
                    assert(ws.spec_outputs() == total_ops);
                    assert(ws.spec_inputs() == this_slice_inputs);
                }
                slices_acc.push(ws);
                proof {
                    assert(slices_acc@[slices_acc@.len() - 1] == ws);
                    assert forall|j: int, m: int|
                        0 <= j < slices_acc@.len() && 0 <= m < slices_acc@[j].ops@.len()
                        implies op_represents(
                        *graph,
                        prefix@,
                        (#[trigger] slices_acc@[j].ops@[m]).0,
                        slices_acc@[j].ops@[m].1@,
                    ) by {
                        if j < pre_acc.len() {
                            assert(slices_acc@[j] == pre_acc[j]);
                        }
                    }
                    assert forall|j: int, m: int|
                        0 <= j < slices_acc@.len() && 0 <= m < slices_acc@[j].ops@.len()
                            && (#[trigger] slices_acc@[j].ops@[m]).1@.len() != prefix@.len()
                        implies {
                        &&& slices_acc@[j].ops@[m].1@.len() == prefix@.len() + 1
                        &&& rk[j].contains(slices_acc@[j].ops@[m].1@.last())
                    } by {
                        if j < pre_acc.len() {
                            assert(slices_acc@[j] == pre_acc[j]);
                        }
                    }
                    assert forall|j: int| 0 <= j < slices_acc@.len() implies items_cover_rank(
                        (#[trigger] slices_acc@[j]).ops@,
                        prefix@,
                        rk,
                        j,
                    ) by {
                        if j < pre_acc.len() {
                            assert(slices_acc@[j] == pre_acc[j]);
                        } else {
                            assert(items_cover_rank(ws.ops@, prefix@, rk, r as int));
                        }
                    }
                    assert forall|j: int, m1: int, m2: int|
                        0 <= j < slices_acc@.len() && 0 <= m1 < m2 < slices_acc@[j].ops@.len()
                            && (#[trigger] slices_acc@[j].ops@[m1]).1@.len() != prefix@.len()
                        implies slices_acc@[j].ops@[m1].1@ != (
                    #[trigger] slices_acc@[j].ops@[m2]).1@ by {
                        if j < pre_acc.len() {
                            assert(slices_acc@[j] == pre_acc[j]);
                            assert(pre_acc[j].ops@[m1].1@ != pre_acc[j].ops@[m2].1@);
                        } else {
                            assert(slices_acc@[j] == ws);
                            assert(ws.ops@[m1].1@.len() != prefix@.len());
                            assert(ws.ops@[m1].1@ != ws.ops@[m2].1@);
                        }
                    }
                    assert(slices_unique_within(prefix@, slices_acc@));
                }
            }
            wirings_acc.push(wiring);
            open_wires = new_opens;
            r += 1;
        }

        // Reverse into top-to-bottom reading order and assemble.
        let rev_slices = reverse_vec(slices_acc);
        let rev_wirings = reverse_vec(wirings_acc);
        let result = MonoidalWiredGraph {
            inputs: input_wires,
            slices: rev_slices,
            wirings: rev_wirings,
        };
        proof {
            let ghost ls = result.slices@.len() as int;
            assert(ls == k);
            assert(result.wirings@.len() == k + 1);
            assert(result.wirings@[0].forward_len() == graph.input_wires());
            assert forall|i: int| 0 <= i < ls implies (#[trigger] result.wirings@[i]).backward_len()
                == result.slices@[i].spec_inputs() by {
                assert(result.wirings@[i] == wirings_acc@[k - i]);
                assert(result.slices@[i] == slices_acc@[k - 1 - i]);
            }
            assert forall|i: int| 0 <= i < ls && i + 1 < result.wirings@.len()
                implies (#[trigger] result.slices@[i]).spec_outputs() == result.wirings@[i
                + 1].forward_len() by {
                assert(result.slices@[i] == slices_acc@[k - 1 - i]);
                assert(result.wirings@[i + 1] == wirings_acc@[k - 1 - i]);
            }
            assert(result.wired_wf());
            // the slices faithfully present the graph's interior nodes
            assert forall|j: int, m: int|
                0 <= j < result.slices@.len() && 0 <= m < result.slices@[j].ops@.len()
                implies op_represents(
                *graph,
                prefix@,
                (#[trigger] result.slices@[j].ops@[m]).0,
                result.slices@[j].ops@[m].1@,
            ) by {
                assert(result.slices@[j] == slices_acc@[k - 1 - j]);
            }
            assert forall|j1: int, j2: int, m1: int, m2: int|
                0 <= j1 < j2 < result.slices@.len() && 0 <= m1 < result.slices@[j1].ops@.len()
                    && 0 <= m2 < result.slices@[j2].ops@.len()
                    && (#[trigger] result.slices@[j1].ops@[m1]).1@.len() != prefix@.len()
                implies result.slices@[j1].ops@[m1].1@ != (
            #[trigger] result.slices@[j2].ops@[m2]).1@ by {
                let a1 = k - 1 - j1;
                let a2 = k - 1 - j2;
                assert(result.slices@[j1] == slices_acc@[a1]);
                assert(result.slices@[j2] == slices_acc@[a2]);
                if slices_acc@[a1].ops@[m1].1@ == slices_acc@[a2].ops@[m2].1@ {
                    let n1 = slices_acc@[a1].ops@[m1].1@.last();
                    assert(rk[a1].contains(n1));
                    assert(slices_acc@[a2].ops@[m2].1@.len() != prefix@.len());
                    assert(rk[a2].contains(slices_acc@[a2].ops@[m2].1@.last()));
                    // the same node cannot sit in two different ranks
                    assert(a2 < a1 && a1 < k);
                    assert(rk.take(k)[a2] == rk[a2] && rk.take(k)[a1] == rk[a1]);
                    assert(NodeIndex(n1.0 as int as usize) == n1);
                    assert(rk[a2].contains(NodeIndex(n1.0 as int as usize)));
                    assert(rk[a1].contains(NodeIndex(n1.0 as int as usize)));
                    assert(false);
                }
            }
            assert forall|i2: int| graph.is_interior(i2) implies node_in_slices(
                result.slices@,
                prefix@,
                NodeIndex(i2 as usize),
            ) by {
                assert(in_ranks(rk.take(k), i2));
                let j = choose|j: int|
                    0 <= j < rk.take(k).len() && #[trigger] rk.take(k)[j].contains(
                        NodeIndex(i2 as usize),
                    );
                assert(rk[j].contains(NodeIndex(i2 as usize)));
                let u = choose|u: int| 0 <= u < rk[j].len() && rk[j][u] == NodeIndex(i2 as usize);
                assert(items_cover_rank(slices_acc@[j].ops@, prefix@, rk, j));
                let m3 = choose|m3: int|
                    0 <= m3 < slices_acc@[j].ops@.len() && (#[trigger] slices_acc@[j].ops@[m3]).1@
                        == prefix@.push(rk[j][u]);
                assert(result.slices@[k - 1 - j] == slices_acc@[j]);
                assert(result.slices@[k - 1 - j].ops@[m3].1@ == prefix@.push(
                    NodeIndex(i2 as usize),
                ));
                assert(node_in_slices(result.slices@, prefix@, NodeIndex(i2 as usize)));
            }
            assert(slices_represent(*graph, prefix@, result.slices@));
            assert(slices_nodes_unique(prefix@, result.slices@));
            assert forall|j: int, m1: int, m2: int|
                0 <= j < result.slices@.len() && 0 <= m1 < m2 < result.slices@[j].ops@.len()
                    && (#[trigger] result.slices@[j].ops@[m1]).1@.len() != prefix@.len()
                implies result.slices@[j].ops@[m1].1@ != (
            #[trigger] result.slices@[j].ops@[m2]).1@ by {
                assert(result.slices@[j] == slices_acc@[k - 1 - j]);
            }
            assert(slices_unique_within(prefix@, result.slices@));
            assert(slices_cover_graph(*graph, prefix@, result.slices@));
            // every thunk body at this level was lowered successfully
            assert forall|i: int| 0 <= i < graph.node_count() implies match #[trigger] graph.node_data(
                i,
            ) {
                Node::Thunk { args, body } => body.lowerable(),
                _ => true,
            } by {
                match graph.node_data(i) {
                    Node::Thunk { args, body } => {
                        assert(graph.is_interior(i));
                        assert(in_ranks(rk.take(k), i));
                        let j = choose|j: int|
                            0 <= j < rk.take(k).len() && #[trigger] rk.take(k)[j].contains(
                                NodeIndex(i as usize),
                            );
                        let u = choose|u: int|
                            0 <= u < rk[j].len() && rk[j][u] == NodeIndex(i as usize);
                        assert(rk[j][u].0 as int == i);
                    }
                    _ => {}
                }
            }
            assert(graph.lowerable());
        }
        Ok(result)
    }
}


/// A wired operation at arena prefix `prefix` faithfully presents the
/// node its address names: an identity wire carries a valid port at the
/// prefix itself; an operation keeps its node's weight and input ports; a
/// thunk keeps its node's argument count, input ports, and a body whose
/// wire count is the owned body graph's boundary count.
pub open spec fn op_represents<E>(
    g: HyperGraph<E>,
    prefix: Seq<NodeIndex>,
    op: MonoidalWiredOp<E>,
    addr: Seq<NodeIndex>,
) -> bool {
    match op {
        MonoidalWiredOp::Id { port } => addr == prefix && g.valid_out_port(port),
        MonoidalWiredOp::Operation { inputs, op_name } => {
            &&& addr.len() == prefix.len() + 1
            &&& addr.take(prefix.len() as int) == prefix
            &&& addr.last().0 < g.node_count()
            &&& g.node_data(addr.last().0 as int) == Node::Weight(op_name)
            &&& inputs@ == g.node_inputs(addr.last().0 as int)
        },
        MonoidalWiredOp::Thunk { inputs, args, body } => {
            &&& addr.len() == prefix.len() + 1
            &&& addr.take(prefix.len() as int) == prefix
            &&& addr.last().0 < g.node_count()
            &&& g.node_data(addr.last().0 as int) matches Node::Thunk { args: nargs, body: nbody }
                && nargs == args && body.inputs == nbody.input_wires() && body.wired_wf()
            &&& inputs@ == g.node_inputs(addr.last().0 as int)
        },
    }
}

/// Some operation of the slices is addressed `prefix` plus `n`.
pub open spec fn node_in_slices<E>(
    wslices: Seq<WiredSlice<E>>,
    prefix: Seq<NodeIndex>,
    n: NodeIndex,
) -> bool {
    exists|j: int, m: int|
        0 <= j < wslices.len() && 0 <= m < wslices[j].ops@.len()
            && (#[trigger] wslices[j].ops@[m]).1@ == prefix.push(n)
}


/// A value occurring at two positions occurs at two positions of any
/// reordering's source, and distinct co-occurring values keep distinct
/// source positions: pairwise node-distinctness of the non-identity
/// operations survives any reordering.
proof fn lemma_reorder_node_distinct<E>(a: Seq<RankOp<E>>, b: Seq<RankOp<E>>)
    requires
        a.to_multiset() == b.to_multiset(),
        forall|q1: int, q2: int|
            0 <= q1 < q2 < a.len() && !((#[trigger] a[q1]).op matches Some(
                MonoidalWiredOp::Id { port },
            )) && !((#[trigger] a[q2]).op matches Some(MonoidalWiredOp::Id { port }))
            ==> a[q1].node != a[q2].node,
    ensures
        forall|q1: int, q2: int|
            0 <= q1 < q2 < b.len() && !((#[trigger] b[q1]).op matches Some(
                MonoidalWiredOp::Id { port },
            )) && !((#[trigger] b[q2]).op matches Some(MonoidalWiredOp::Id { port }))
            ==> b[q1].node != b[q2].node,
{
    assert forall|q1: int, q2: int|
        0 <= q1 < q2 < b.len() && !((#[trigger] b[q1]).op matches Some(
            MonoidalWiredOp::Id { port },
        )) && !((#[trigger] b[q2]).op matches Some(MonoidalWiredOp::Id { port }))
        implies b[q1].node != b[q2].node by {
        if b[q1].node == b[q2].node {
            if b[q1] == b[q2] {
                // the shared value occurs twice, so it occurs twice in `a`
                let v = b[q1];
                vstd::seq_lib::to_multiset_remove(b, q1);
                assert(b.remove(q1)[q2 - 1] == v);
                assert(b.remove(q1).contains(v));
                assert(b.remove(q1).to_multiset().count(v) > 0);
                assert(b.to_multiset().count(v) >= 2);
                assert(a.to_multiset().count(v) >= 2);
                assert(a.to_multiset().count(v) > 0);
                assert(a.contains(v));
                let i1 = choose|i1: int| 0 <= i1 < a.len() && a[i1] == v;
                vstd::seq_lib::to_multiset_remove(a, i1);
                assert(a.remove(i1).to_multiset().count(v) >= 1);
                assert(a.remove(i1).contains(v));
                let i2r = choose|i2r: int| 0 <= i2r < a.remove(i1).len() && a.remove(i1)[i2r] == v;
                let i2 = if i2r < i1 { i2r } else { i2r + 1 };
                assert(a[i2] == v);
                assert(i1 != i2);
                if i1 < i2 {
                    assert(a[i1].node != a[i2].node);
                } else {
                    assert(a[i2].node != a[i1].node);
                }
                assert(false);
            } else {
                // two distinct values with the same node both come from `a`
                assert(b.contains(b[q1]) && b.contains(b[q2]));
                assert(b.to_multiset().count(b[q1]) > 0 && b.to_multiset().count(b[q2]) > 0);
                assert(a.to_multiset().count(b[q1]) > 0 && a.to_multiset().count(b[q2]) > 0);
                assert(a.contains(b[q1]) && a.contains(b[q2]));
                let i1 = choose|i1: int| 0 <= i1 < a.len() && a[i1] == b[q1];
                let i2 = choose|i2: int| 0 <= i2 < a.len() && a[i2] == b[q2];
                assert(i1 != i2);
                if i1 < i2 {
                    assert(a[i1].node != a[i2].node);
                } else {
                    assert(a[i2].node != a[i1].node);
                }
                assert(false);
            }
        }
    }
}

/// The non-identity operations of a rank belong to pairwise distinct
/// nodes.
spec fn rank_nodes_distinct<E>(ops: Seq<RankOp<E>>) -> bool {
    forall|q1: int, q2: int|
        0 <= q1 < q2 < ops.len() && !((#[trigger] ops[q1]).op matches Some(
            MonoidalWiredOp::Id { port },
        )) && !((#[trigger] ops[q2]).op matches Some(MonoidalWiredOp::Id { port }))
            ==> ops[q1].node != ops[q2].node
}

/// A universal fact about a sequence's entries survives any reordering.
proof fn lemma_reorder_transfer<T>(a: Seq<T>, b: Seq<T>, p: spec_fn(T) -> bool)
    requires
        a.to_multiset() == b.to_multiset(),
        forall|m: int| 0 <= m < a.len() ==> p(#[trigger] a[m]),
    ensures
        forall|m: int| 0 <= m < b.len() ==> p(#[trigger] b[m]),
{
    broadcast use vstd::seq_lib::group_to_multiset_ensures;
    broadcast use vstd::multiset::group_multiset_axioms;

    assert forall|m: int| 0 <= m < b.len() implies p(#[trigger] b[m]) by {
        assert(b.contains(b[m]));
        assert(b.to_multiset().count(b[m]) > 0);
        assert(a.to_multiset().count(b[m]) > 0);
        assert(a.contains(b[m]));
        let q = choose|q: int| 0 <= q < a.len() && a[q] == b[m];
        assert(p(a[q]));
    }
}

/// An existing value still occurs after any reordering.
proof fn lemma_reorder_member<T>(a: Seq<T>, b: Seq<T>, x: T)
    requires
        a.to_multiset() == b.to_multiset(),
        a.contains(x),
    ensures
        b.contains(x),
{
    broadcast use vstd::seq_lib::group_to_multiset_ensures;
    broadcast use vstd::multiset::group_multiset_axioms;

    assert(a.to_multiset().count(x) > 0);
    assert(b.to_multiset().count(x) > 0);
}

/// Compares two ordering weights (sums over counts, a count of zero
/// standing for an unconstrained operation ordered last), exactly, via
/// quotient and remainder.
fn weight_leq<E>(a: &RankOp<E>, b: &RankOp<E>) -> bool
    requires
        a.wcnt <= usize::MAX as u128,
        b.wcnt <= usize::MAX as u128,
{
    if a.wcnt == 0 {
        b.wcnt == 0
    } else if b.wcnt == 0 {
        true
    } else {
        let qa = a.wsum / a.wcnt;
        let ra = a.wsum % a.wcnt;
        let qb = b.wsum / b.wcnt;
        let rb = b.wsum % b.wcnt;
        if qa != qb {
            qa < qb
        } else {
            proof {
                assert(ra < a.wcnt);
                assert(rb < b.wcnt);
                assert(ra * b.wcnt <= u128::MAX) by (nonlinear_arith)
                    requires ra <= usize::MAX as u128 && b.wcnt <= usize::MAX as u128;
                assert(rb * a.wcnt <= u128::MAX) by (nonlinear_arith)
                    requires rb <= usize::MAX as u128 && a.wcnt <= usize::MAX as u128;
            }
            ra * b.wcnt <= rb * a.wcnt
        }
    }
}

/// The built-in ordering heuristic for the operations of one rank: sorts
/// by the average open-wire position each operation is demanded at.  This
/// is the seam an external crossing-minimising optimizer could replace:
/// any reordering of the same operations is structurally valid.
fn order_rank_ops<E>(ops: Vec<RankOp<E>>) -> (r: Vec<RankOp<E>>)
    requires
        forall|m: int| 0 <= m < ops@.len() ==> (#[trigger] ops@[m]).wcnt <= usize::MAX as u128,
    ensures
        r@.len() == ops@.len(),
        r@.to_multiset() == ops@.to_multiset(),
{
    broadcast use vstd::seq_lib::group_to_multiset_ensures;
    broadcast use vstd::multiset::group_multiset_axioms;

    let ghost orig = ops@;
    let mut src = ops;
    let mut out: Vec<RankOp<E>> = Vec::new();
    proof {
        assert(out@.to_multiset().add(src@.to_multiset()) =~= orig.to_multiset());
    }
    while src.len() > 0
        invariant
            forall|m: int| 0 <= m < src@.len() ==> (#[trigger] src@[m]).wcnt <= usize::MAX as u128,
            out@.to_multiset().add(src@.to_multiset()) =~= orig.to_multiset(),
            out@.len() + src@.len() == orig.len(),
        decreases src@.len(),
    {
        let mut best: usize = 0;
        let mut t: usize = 1;
        while t < src.len()
            invariant
                forall|m: int| 0 <= m < src@.len() ==> (#[trigger] src@[m]).wcnt <= usize::MAX as u128,
                src@.len() > 0,
                best < src@.len(),
                t <= src@.len(),
            decreases src@.len() - t,
        {
            if weight_leq(&src[t], &src[best]) {
                best = t;
            }
            t += 1;
        }
        let ghost pre_src = src@;
        let ghost pre_out = out@;
        let x = src.remove(best);
        out.push(x);
        proof {
            vstd::seq_lib::to_multiset_remove(pre_src, best as int);
            vstd::seq_lib::to_multiset_build(pre_out, x);
            assert(pre_src.remove(best as int).to_multiset() =~= pre_src.to_multiset().remove(x));
            assert(pre_out.push(x).to_multiset() =~= pre_out.to_multiset().insert(x));
            assert(pre_src.contains(x)) by {
                assert(pre_src[best as int] == x);
            }
            assert(pre_src.to_multiset().count(x) > 0);
            assert(out@.to_multiset().add(src@.to_multiset()) =~= orig.to_multiset());
        }
    }
    proof {
        assert(src@.to_multiset() =~= Multiset::<RankOp<E>>::empty()) by {
            assert(src@.len() == 0);
            assert(src@.to_multiset().len() == 0);
        }
        assert(out@.to_multiset() =~= orig.to_multiset());
    }
    out
}

/// First position of `p` in `ports`, if any.
fn find_port(ports: &Vec<Port>, p: Port) -> (r: Option<usize>)
    ensures
        match r {
            Some(pos) => pos < ports@.len() && ports@[pos as int] == p,
            None => !ports@.contains(p),
        },
{
    let mut m: usize = 0;
    while m < ports.len()
        invariant
            m <= ports@.len(),
            forall|q: int| 0 <= q < m ==> ports@[q] != p,
        decreases ports@.len() - m,
    {
        if ports[m].node.0 == p.node.0 && ports[m].index.0 == p.index.0 {
            return Some(m);
        }
        m += 1;
    }
    proof {
        if ports@.contains(p) {
            let q = choose|q: int| 0 <= q < ports@.len() && ports@[q] == p;
        }
    }
    None
}

/// Whether `v` holds `x`.
fn contains_index(v: &Vec<NodeIndex>, x: NodeIndex) -> (r: bool)
    ensures
        r == v@.contains(x),
{
    let mut m: usize = 0;
    while m < v.len()
        invariant
            m <= v@.len(),
            forall|q: int| 0 <= q < m ==> v@[q] != x,
        decreases v@.len() - m,
    {
        if v[m].0 == x.0 {
            return true;
        }
        m += 1;
    }
    proof {
        if v@.contains(x) {
            let q = choose|q: int| 0 <= q < v@.len() && v@[q] == x;
        }
    }
    false
}

/// Reverses a vector.
fn reverse_vec<T>(v: Vec<T>) -> (r: Vec<T>)
    ensures
        r@.len() == v@.len(),
        forall|m: int| 0 <= m < r@.len() ==> r@[m] == v@[v@.len() - 1 - m],
{
    let ghost orig = v@;
    let mut v = v;
    let mut r: Vec<T> = Vec::new();
    while v.len() > 0
        invariant
            v@ == orig.take(v@.len() as int),
            r@.len() + v@.len() == orig.len(),
            forall|m: int| 0 <= m < r@.len() ==> r@[m] == orig[orig.len() - 1 - m],
        decreases v@.len(),
    {
        let x = match v.pop() {
            Some(x) => x,
            None => {
                proof {
                    assert(false);
                }
                return r;
            }
        };
        proof {
            assert(orig.take(v@.len() as int + 1).drop_last() =~= orig.take(v@.len() as int));
            assert(orig.take(v@.len() as int + 1).last() == orig[v@.len() as int]);
        }
        r.push(x);
    }
    r
}

/// The producer of an input port of a node in interior rank `r` is either
/// a boundary `Input` node or an interior node in a strictly later rank.
proof fn lemma_producer_later<E>(
    g: HyperGraph<E>,
    irk: Seq<Seq<NodeIndex>>,
    r: int,
    consumer: int,
    k: int,
)
    requires
        g.wf(),
        g.node_count() <= usize::MAX,
        g.ranks_layered(irk),
        forall|j1: int, j2: int, i: int|
            0 <= j1 < j2 < irk.len() && #[trigger] irk[j1].contains(NodeIndex(i as usize))
                ==> !(#[trigger] irk[j2].contains(NodeIndex(i as usize))),
        forall|i: int| g.is_interior(i) ==> in_ranks(irk, i),
        forall|j: int, m: int|
            0 <= j < irk.len() && 0 <= m < irk[j].len() ==> g.is_interior(
                (#[trigger] irk[j][m]).0 as int,
            ),
        0 <= r < irk.len(),
        irk[r].contains(NodeIndex(consumer as usize)),
        0 <= consumer < g.node_count(),
    ensures
        forall|ki: int|
            0 <= ki < g.node_inputs(consumer).len() ==> {
                let src = #[trigger] g.node_inputs(consumer)[ki];
                &&& g.valid_out_port(src)
                &&& (g.node_data(src.node.0 as int) is Input || exists|j: int|
                    r < j < irk.len() && (#[trigger] irk[j]).contains(src.node))
            },
{
    assert(g.node_wf(consumer));
    assert forall|ki: int| 0 <= ki < g.node_inputs(consumer).len() implies {
        let src = #[trigger] g.node_inputs(consumer)[ki];
        &&& g.valid_out_port(src)
        &&& (g.node_data(src.node.0 as int) is Input || exists|j: int|
            r < j < irk.len() && (#[trigger] irk[j]).contains(src.node))
    } by {
        let src = g.node_inputs(consumer)[ki];
        let sn = src.node.0 as int;
        assert(g.valid_out_port(src));
        assert(g.node_wf(sn));
        // the producer has an output port, so it is not an Output node
        assert(!(g.node_data(sn) is Output));
        if !(g.node_data(sn) is Input) {
            assert(g.is_interior(sn));
            assert(in_ranks(irk, sn));
            let j = choose|j: int| 0 <= j < irk.len() && #[trigger] irk[j].contains(NodeIndex(sn as usize));
            // the consumer sits in a strictly earlier rank than the producer
            assert(g.node_outputs(sn)[src.index.0 as int].contains(
                Port { node: NodeIndex(consumer as usize), index: PortIndex(ki as usize) },
            ));
            let c = Port { node: NodeIndex(consumer as usize), index: PortIndex(ki as usize) };
            let cm = choose|cm: int|
                0 <= cm < g.node_outputs(sn)[src.index.0 as int].len()
                    && g.node_outputs(sn)[src.index.0 as int][cm] == c;
            let jm = choose|jm: int|
                0 <= jm < irk[j].len() && irk[j][jm] == NodeIndex(sn as usize);
            assert(g.node_layered(irk, j, sn)) by {
                assert(irk[j][jm].0 as int == sn);
            }
            assert(g.consumer_in_earlier_rank(irk, j, c.node.0 as int)) by {
                assert(g.node_outputs(sn)[src.index.0 as int][cm] == c);
            }
            assert(!(g.node_data(consumer) is Output));
            let j2 = choose|j2: int|
                0 <= j2 < j && #[trigger] irk[j2].contains(NodeIndex(consumer as usize));
            // consumer occurs in both rank r and rank j2, so r == j2 < j
            assert(r == j2) by {
                if r < j2 {
                    assert(irk[r].contains(NodeIndex(consumer as usize)));
                    assert(false);
                } else if j2 < r {
                    assert(irk[j2].contains(NodeIndex(consumer as usize)));
                    assert(false);
                }
            }
            assert(r < j < irk.len());
            assert(irk[j].contains(src.node)) by {
                assert(NodeIndex(sn as usize) == src.node);
            }
        }
    }
}

/// Copies a borrowed path into an owned vector.
fn clone_index_vec(path: &[NodeIndex]) -> (r: Vec<NodeIndex>)
    ensures
        r@ == path@,
{
    let mut r: Vec<NodeIndex> = Vec::new();
    let mut i: usize = 0;
    while i < path.len()
        invariant
            i <= path@.len(),
            r@ == path@.take(i as int),
        decreases path@.len() - i,
    {
        r.push(path[i]);
        proof {
            assert(path@.take(i + 1) =~= path@.take(i as int).push(path@[i as int]));
        }
        i += 1;
    }
    proof {
        assert(path@.take(path@.len() as int) =~= path@);
    }
    r
}

/// Copies a vector of ports.
fn clone_port_vec(v: &Vec<Port>) -> (r: Vec<Port>)
    ensures
        r@ == v@,
{
    let mut r: Vec<Port> = Vec::new();
    let mut i: usize = 0;
    while i < v.len()
        invariant
            i <= v@.len(),
            r@ == v@.take(i as int),
        decreases v@.len() - i,
    {
        r.push(v[i]);
        proof {
            assert(v@.take(i + 1) =~= v@.take(i as int).push(v@[i as int]));
        }
        i += 1;
    }
    proof {
        assert(v@.take(v@.len() as int) =~= v@);
    }
    r
}

/// Copies a wiring layer's operation list (only copies and swaps occur).
fn clone_wiring_items<E>(items: &Vec<(MonoidalOp<E>, Vec<NodeIndex>)>) -> (r: Vec<(MonoidalOp<E>, Vec<NodeIndex>)>)
    requires
        forall|m: int|
            0 <= m < items@.len() ==> ((#[trigger] items@[m].0) is Copy || items@[m].0 is Swap),
    ensures
        r@.len() == items@.len(),
        forall|m: int| 0 <= m < r@.len() ==> #[trigger] r@[m].0 == items@[m].0
            && r@[m].1@ == items@[m].1@,
{
    let mut r: Vec<(MonoidalOp<E>, Vec<NodeIndex>)> = Vec::new();
    let mut i: usize = 0;
    while i < items.len()
        invariant
            forall|m: int|
                0 <= m < items@.len() ==> ((#[trigger] items@[m].0) is Copy || items@[m].0 is Swap),
            i <= items@.len(),
            r@.len() == i,
            forall|m: int| 0 <= m < i ==> #[trigger] r@[m].0 == items@[m].0
                && r@[m].1@ == items@[m].1@,
        decreases items@.len() - i,
    {
        let addr = clone_index_vec(items[i].1.as_slice());
        let op: MonoidalOp<E> = match &items[i].0 {
            MonoidalOp::Swap => MonoidalOp::Swap,
            MonoidalOp::Copy { copies } => MonoidalOp::Copy { copies: *copies },
            _ => {
                proof {
                    assert(false);
                }
                MonoidalOp::Swap
            }
        };
        r.push((op, addr));
        i += 1;
    }
    r
}

} // verus!
