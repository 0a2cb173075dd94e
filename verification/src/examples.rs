//! Small hand-built monoidal graphs, each with its arity composition
//! proved: a constant, a pair of fan-outs, and a diagram holding a thunk.

use vstd::prelude::*;
use crate::language::spartan::Op;
use crate::monoidal::{MonoidalGraph, MonoidalOp, Slice, slice_ops};
use crate::hypergraph::NodeIndex;

verus! {

/// Corresponds to the program `bind x = 1() in x`.
pub fn integer() -> (r: MonoidalGraph<Op>)
    ensures
        r.arity_ok(),
        r.arity_wf(),
        r.inputs == 0,
        r.slices@.len() == 1,
        slice_ops(r.slices@[0]) == seq![
            MonoidalOp::<Op>::Operation { inputs: 0, op_name: Op::Number(1) },
        ],
        r.slices@[0].ops@[0].1@ == Seq::<NodeIndex>::empty(),
{
    let mut ops: Vec<(MonoidalOp<Op>, Vec<NodeIndex>)> = Vec::new();
    ops.push((MonoidalOp::Operation { inputs: 0, op_name: Op::Number(1) }, Vec::new()));
    let s = Slice { ops };
    proof {
        lemma_singleton_arity(s);
    }
    let mut slices: Vec<Slice<Op>> = Vec::new();
    slices.push(s);
    MonoidalGraph { inputs: 0, slices }
}

/// One wire fanned out twice, then the left copy fanned out again.
pub fn copy() -> (r: MonoidalGraph<Op>)
    ensures
        r.arity_ok(),
        r.arity_wf(),
        r.inputs == 1,
        r.slices@.len() == 2,
        slice_ops(r.slices@[0]) == seq![MonoidalOp::<Op>::Copy { copies: 2 }],
        slice_ops(r.slices@[1]) == seq![
            MonoidalOp::<Op>::Copy { copies: 2 },
            MonoidalOp::<Op>::Copy { copies: 1 },
        ],
{
    let mut ops0: Vec<(MonoidalOp<Op>, Vec<NodeIndex>)> = Vec::new();
    ops0.push((MonoidalOp::Copy { copies: 2 }, Vec::new()));
    let s0 = Slice { ops: ops0 };
    let mut ops1: Vec<(MonoidalOp<Op>, Vec<NodeIndex>)> = Vec::new();
    ops1.push((MonoidalOp::Copy { copies: 2 }, Vec::new()));
    ops1.push((MonoidalOp::Copy { copies: 1 }, Vec::new()));
    let s1 = Slice { ops: ops1 };
    proof {
        lemma_singleton_arity(s0);
        lemma_pair_arity(s1);
    }
    let mut slices: Vec<Slice<Op>> = Vec::new();
    slices.push(s0);
    slices.push(s1);
    MonoidalGraph { inputs: 1, slices }
}

/// A thunk binding one argument over an addition, beside an addition.
pub fn thunk() -> (r: MonoidalGraph<Op>)
    ensures
        r.arity_ok(),
        r.arity_wf(),
        r.inputs == 3,
        r.slices@.len() == 1,
        r.slices@[0].ops@.len() == 2,
        r.slices@[0].ops@[0].0 matches MonoidalOp::Thunk { args, body, expanded }
            && args == 1 && expanded && body.inputs == 2 && body.slices@.len() == 1
            && slice_ops(body.slices@[0]) == seq![
            MonoidalOp::<Op>::Operation { inputs: 2, op_name: Op::Plus },
        ],
        r.slices@[0].ops@[1].0 == (MonoidalOp::<Op>::Operation { inputs: 2, op_name: Op::Plus }),
{
    let mut body_ops: Vec<(MonoidalOp<Op>, Vec<NodeIndex>)> = Vec::new();
    body_ops.push((MonoidalOp::Operation { inputs: 2, op_name: Op::Plus }, Vec::new()));
    let body_slice = Slice { ops: body_ops };
    proof {
        lemma_singleton_arity(body_slice);
    }
    let mut body_slices: Vec<Slice<Op>> = Vec::new();
    body_slices.push(body_slice);
    let plus = MonoidalGraph { inputs: 2, slices: body_slices };
    proof {
        assert forall|i: int, m: int|
            0 <= i < plus.slices@.len() && 0 <= m < plus.slices@[i].ops@.len()
            implies (#[trigger] plus.slices@[i].ops@[m].0).arity_wf() by {
            assert(plus.slices@[i].ops@[m].0 is Operation);
        }
        assert(plus.arity_wf());
    }

    let mut ops: Vec<(MonoidalOp<Op>, Vec<NodeIndex>)> = Vec::new();
    ops.push((MonoidalOp::Thunk { args: 1, body: plus, expanded: true }, Vec::new()));
    ops.push((MonoidalOp::Operation { inputs: 2, op_name: Op::Plus }, Vec::new()));
    let s = Slice { ops };
    proof {
        lemma_pair_arity(s);
    }
    let mut slices: Vec<Slice<Op>> = Vec::new();
    slices.push(s);
    let r = MonoidalGraph { inputs: 3, slices };
    proof {
        assert forall|i: int, m: int|
            0 <= i < r.slices@.len() && 0 <= m < r.slices@[i].ops@.len()
            implies (#[trigger] r.slices@[i].ops@[m].0).arity_wf() by {
            if m == 0 {
                assert(r.slices@[i].ops@[m].0 matches MonoidalOp::Thunk { args, body, expanded }
                    && args == 1 && body.inputs == 2);
            } else {
                assert(r.slices@[i].ops@[m].0 is Operation);
            }
        }
    }
    r
}

/// Arity of a one-operation sequence.
proof fn lemma_sum_single<E>(x: MonoidalOp<E>)
    ensures
        crate::monoidal::sum_inputs(seq![x]) == x.spec_inputs(),
        crate::monoidal::sum_outputs(seq![x]) == x.spec_outputs(),
{
    assert(seq![x].drop_first() =~= Seq::<MonoidalOp<E>>::empty());
    assert(seq![x][0] == x);
    assert(crate::monoidal::sum_inputs(Seq::<MonoidalOp<E>>::empty()) == 0);
    assert(crate::monoidal::sum_outputs(Seq::<MonoidalOp<E>>::empty()) == 0);
}

/// Arity bookkeeping for a one-operation slice.
proof fn lemma_singleton_arity<E>(s: Slice<E>)
    requires
        s.ops@.len() == 1,
    ensures
        s.spec_inputs() == s.ops@[0].0.spec_inputs(),
        s.spec_outputs() == s.ops@[0].0.spec_outputs(),
{
    assert(slice_ops(s) =~= seq![s.ops@[0].0]);
    lemma_sum_single(s.ops@[0].0);
}

/// Arity bookkeeping for a two-operation slice.
proof fn lemma_pair_arity<E>(s: Slice<E>)
    requires
        s.ops@.len() == 2,
    ensures
        s.spec_inputs() == s.ops@[0].0.spec_inputs() + s.ops@[1].0.spec_inputs(),
        s.spec_outputs() == s.ops@[0].0.spec_outputs() + s.ops@[1].0.spec_outputs(),
{
    assert(slice_ops(s) =~= seq![s.ops@[0].0, s.ops@[1].0]);
    assert(slice_ops(s).drop_first() =~= seq![s.ops@[1].0]);
    assert(slice_ops(s)[0] == s.ops@[0].0);
    lemma_sum_single(s.ops@[1].0);
}

} // verus!
