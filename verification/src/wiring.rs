//! Wiring layers: the bookkeeping between two slices of a wired monoidal
//! graph.  A `Wiring` records, for every output port position of the slice
//! above (`forward`), which open-wire positions below demand it, and, for
//! every open wire (`backward`), which port position it is fed from.  It is
//! lowered to a copy layer followed by adjacent-swap layers.

use vstd::prelude::*;
use crate::hypergraph::NodeIndex;
use crate::monoidal::{MonoidalOp, Slice, slice_ops, sum_inputs, sum_outputs, is_swap_or_id, slices_compose, swap_passes, lemma_sum_push_in, lemma_sum_push_out};

verus! {

broadcast use vstd::seq_lib::lemma_seq_contains_after_push;

/// The two-sided index of a wiring layer: `forward[i]` lists the demand
/// positions fed from port position `i`, in increasing order, and
/// `backward[j]` names the port position feeding demand position `j`.
#[derive(Debug, PartialEq, Eq)]
pub struct Wiring {
    forward: Vec<Vec<usize>>,
    backward: Vec<usize>,
}

/// Total number of demand positions recorded in `forward`.
pub open spec fn sum_lens(forward: Seq<Seq<usize>>) -> int
    decreases forward.len(),
{
    if forward.len() == 0 {
        0
    } else {
        forward.last().len() + sum_lens(forward.drop_last())
    }
}

proof fn lemma_sum_lens_update(s: Seq<Seq<usize>>, t: Seq<Seq<usize>>, i: int)
    requires
        s.len() == t.len(),
        0 <= i < s.len(),
        forall|k: int| 0 <= k < s.len() && k != i ==> s[k] == t[k],
    ensures
        sum_lens(t) == sum_lens(s) + t[i].len() - s[i].len(),
    decreases s.len(),
{
    if s.len() > 0 {
        if i == s.len() - 1 {
            assert(s.drop_last() =~= t.drop_last());
        } else {
            assert(forall|k: int|
                0 <= k < s.len() - 1 && k != i ==> s.drop_last()[k] == t.drop_last()[k]);
            lemma_sum_lens_update(s.drop_last(), t.drop_last(), i);
        }
    }
}


/// The fan-out layer of a wiring: one `Copy` per port position, carrying
/// that position's demand count.
pub open spec fn copy_layer<E>(fwd: Seq<Seq<usize>>) -> Seq<MonoidalOp<E>> {
    Seq::new(fwd.len(), |i: int| MonoidalOp::Copy { copies: fwd[i].len() as usize })
}

/// Every port position is demanded exactly once.
pub open spec fn all_single(fwd: Seq<Seq<usize>>) -> bool {
    forall|i: int| 0 <= i < fwd.len() ==> (#[trigger] fwd[i]).len() == 1
}

/// The layers a wiring lowers to: the fan-out layer — omitted exactly when
/// every demand is one — followed by the demand ordering's bubble passes,
/// innermost first.
pub open spec fn lowered_layers<E>(w: Wiring) -> Seq<Seq<MonoidalOp<E>>> {
    let copies: Seq<Seq<MonoidalOp<E>>> = if all_single(w.forward_seq()) {
        Seq::empty()
    } else {
        seq![copy_layer::<E>(w.forward_seq())]
    };
    copies + swap_passes::<E>(w.backward_seq()).reverse()
}

impl Wiring {
    pub closed spec fn forward_seq(self) -> Seq<Seq<usize>> {
        Seq::new(self.forward@.len(), |i: int| self.forward@[i]@)
    }

    pub closed spec fn backward_seq(self) -> Seq<usize> {
        self.backward@
    }

    /// Number of port positions (wires entering the layer from above).
    pub open spec fn forward_len(self) -> int {
        self.forward_seq().len() as int
    }

    /// Number of demand positions (wires leaving the layer below).
    pub open spec fn backward_len(self) -> int {
        self.backward_seq().len() as int
    }

    /// The two sides agree: `backward` points into `forward`, `forward`
    /// lists exactly the demand positions wired to each port, and the
    /// total demand count matches.
    pub open spec fn wf(self) -> bool {
        &&& forall|j: int|
            0 <= j < self.backward_seq().len() ==> (#[trigger] self.backward_seq()[j]) < self.forward_seq().len()
        &&& forall|i: int, m: int|
            0 <= i < self.forward_seq().len() && 0 <= m < self.forward_seq()[i].len() ==> {
                let j = #[trigger] self.forward_seq()[i][m];
                j < self.backward_seq().len() && self.backward_seq()[j as int] == i
            }
        &&& forall|i: int, m1: int, m2: int|
            0 <= i < self.forward_seq().len() && 0 <= m1 < m2 < self.forward_seq()[i].len()
                ==> (#[trigger] self.forward_seq()[i][m1]) < (#[trigger] self.forward_seq()[i][m2])
        &&& sum_lens(self.forward_seq()) == self.backward_seq().len()
        &&& forall|i: int|
            0 <= i < self.forward_seq().len() ==> (#[trigger] self.forward_seq()[i]).len()
                <= usize::MAX
    }

    /// A fresh wiring over `inputs` port positions with no demand yet.
    pub fn new(inputs: usize) -> (w: Wiring)
        ensures
            w.wf(),
            w.forward_len() == inputs,
            w.backward_len() == 0,
    {
        let mut forward: Vec<Vec<usize>> = Vec::new();
        while forward.len() < inputs
            invariant
                forward@.len() <= inputs,
                forall|i: int| 0 <= i < forward@.len() ==> #[trigger] forward@[i]@.len() == 0,
                sum_lens(Seq::new(forward@.len(), |i: int| forward@[i]@)) == 0,
            decreases inputs - forward@.len(),
        {
            let ghost pre = Seq::new(forward@.len(), |i: int| forward@[i]@);
            forward.push(Vec::new());
            proof {
                let post = Seq::new(forward@.len(), |i: int| forward@[i]@);
                assert(post.drop_last() =~= pre);
            }
        }
        let w = Wiring { forward, backward: Vec::new() };
        w
    }

    /// Wires the next demand position to port position `input`.
    pub fn add_wire(&mut self, input: usize)
        requires
            old(self).wf(),
            input < old(self).forward_len(),
        ensures
            final(self).wf(),
            final(self).forward_len() == old(self).forward_len(),
            final(self).backward_len() == old(self).backward_len() + 1,
            final(self).backward_seq() == old(self).backward_seq().push(input),
    {
        let ghost pre = *self;
        let j = self.backward.len();
        self.forward[input].push(j);
        self.backward.push(input);
        proof {
            let fpre = pre.forward_seq();
            let fpost = self.forward_seq();
            assert(fpost.len() == fpre.len());
            assert(fpost[input as int] =~= fpre[input as int].push(j));
            assert(vstd::std_specs::vec::spec_vec_len(&self.forward@[input as int])
                == self.forward@[input as int]@.len());
            assert forall|i: int| 0 <= i < fpost.len() implies (#[trigger] fpost[i]).len()
                <= usize::MAX by {
                if i != input {
                    assert(fpost[i] == fpre[i]);
                }
            }
            assert(forall|k: int| 0 <= k < fpre.len() && k != input ==> fpost[k] == fpre[k]);
            lemma_sum_lens_update(fpre, fpost, input as int);
            assert forall|i: int, m: int|
                0 <= i < fpost.len() && 0 <= m < fpost[i].len() implies {
                let jj = #[trigger] fpost[i][m];
                jj < self.backward_seq().len() && self.backward_seq()[jj as int] == i
            } by {
                if i == input && m == fpost[i].len() - 1 {
                    assert(fpost[i][m] == j);
                } else {
                    assert(fpost[i][m] == fpre[i][m]);
                    assert(fpre[i][m] < pre.backward_seq().len());
                    assert(self.backward_seq()[fpre[i][m] as int] == pre.backward_seq()[fpre[i][m] as int]);
                }
            }
            assert forall|i: int, m1: int, m2: int|
                0 <= i < fpost.len() && 0 <= m1 < m2 < fpost[i].len()
                implies (#[trigger] fpost[i][m1]) < (#[trigger] fpost[i][m2]) by {
                if i == input && m2 == fpost[i].len() - 1 {
                    assert(fpost[i][m1] == fpre[i][m1]);
                    assert(fpre[i][m1] < pre.backward_seq().len());
                } else {
                    assert(fpost[i][m1] == fpre[i][m1] && fpost[i][m2] == fpre[i][m2]);
                }
            }
        }
    }

    /// Lowers the wiring into monoidal slices: a copy layer (one fan-out per
    /// port position, omitted when every port is demanded exactly once)
    /// followed by the adjacent-swap layers that bring the demand positions
    /// into port order.  The returned sequence composes from `forward_len()`
    /// wires down to `backward_len()` wires.
    pub fn to_slices<E>(&self, prefix: &[NodeIndex]) -> (r: Vec<Slice<E>>)
        requires
            self.wf(),
        ensures
            r@.map_values(|s: Slice<E>| slice_ops(s)) == lowered_layers::<E>(*self),
            slices_compose(r@, self.forward_len(), self.backward_len()),
            forall|j: int, m: int|
                0 <= j < r@.len() && 0 <= m < slice_ops(#[trigger] r@[j]).len()
                    ==> ((#[trigger] slice_ops(r@[j])[m]) is Copy || slice_ops(r@[j])[m] is Swap),
            forall|j: int, m: int|
                0 <= j < r@.len() && 0 <= m < r@[j].ops@.len() ==> (#[trigger] r@[j].ops@[m].1)@ == prefix@,
    {
        let swap_slices: Vec<Slice<E>> = Slice::permutation_to_swaps(
            clone_usize_vec(&self.backward),
            prefix,
        );
        let mut copy_items: Vec<(MonoidalOp<E>, Vec<NodeIndex>)> = Vec::new();
        let mut is_empty = true;
        let mut i: usize = 0;
        proof {
            assert(slice_ops(Slice::<E> { ops: copy_items }).take(0)
                =~= Seq::<MonoidalOp<E>>::empty());
        }
        while i < self.forward.len()
            invariant
                self.wf(),
                i <= self.forward@.len(),
                copy_items@.len() == i,
                forall|m: int|
                    0 <= m < i ==> #[trigger] copy_items@[m].0 == (MonoidalOp::<E>::Copy {
                        copies: self.forward_seq()[m].len() as usize,
                    }),
                forall|m: int| 0 <= m < i ==> (#[trigger] copy_items@[m].1)@ == prefix@,
                is_empty <==> (forall|m: int| 0 <= m < i ==> (#[trigger] self.forward_seq()[m]).len() == 1),
                forall|m: int| 0 <= m < i ==> (#[trigger] self.forward_seq()[m]).len() <= usize::MAX,
            decreases self.forward@.len() - i,
        {
            let copies = self.forward[i].len();
            if copies != 1 {
                is_empty = false;
            }
            copy_items.push((MonoidalOp::Copy { copies }, clone_index_vec(prefix)));
            proof {
                let fs = self.forward_seq();
                assert(fs[i as int].len() == copies);
                if is_empty {
                    assert(copies == 1);
                    assert forall|m: int| 0 <= m < i + 1 implies (#[trigger] fs[m]).len() == 1 by {
                        if m < i {
                        } else {
                            assert(fs[i as int].len() == 1);
                        }
                    }
                } else {
                    if copies == 1 {
                        let m0 = choose|m0: int| 0 <= m0 < i && (#[trigger] fs[m0]).len() != 1;
                        assert(!(forall|m: int| 0 <= m < i + 1 ==> (#[trigger] fs[m]).len() == 1));
                    } else {
                        assert(fs[i as int].len() != 1);
                        assert(!(forall|m: int| 0 <= m < i + 1 ==> (#[trigger] fs[m]).len() == 1));
                    }
                }
            }
            i += 1;
        }

        let ghost fwd = self.forward_seq();
        proof {
            lemma_copy_layer_sums(copy_items@.map_values(|pr: (MonoidalOp<E>, Vec<NodeIndex>)| pr.0), fwd);
        }

        let ghost copy_part: Seq<Seq<MonoidalOp<E>>> = if all_single(fwd) {
            Seq::empty()
        } else {
            seq![copy_layer::<E>(fwd)]
        };
        let mut slices: Vec<Slice<E>> = Vec::new();
        if !is_empty {
            let cs = Slice { ops: copy_items };
            proof {
                assert(slice_ops(cs) =~= cs.ops@.map_values(|pr: (MonoidalOp<E>, Vec<NodeIndex>)| pr.0));
                assert(slice_ops(cs) =~= copy_layer::<E>(fwd));
                assert(cs.spec_inputs() == self.forward_len());
                assert(cs.spec_outputs() == self.backward_len());
                crate::monoidal::lemma_slices_compose_push(
                    Seq::<Slice<E>>::empty(),
                    cs,
                    self.forward_len(),
                    self.forward_len(),
                    self.backward_len(),
                );
                assert(Seq::<Slice<E>>::empty().push(cs) =~= seq![cs]);
            }
            slices.push(cs);
            proof {
                assert(slices@ =~= seq![cs]);
                assert(!all_single(fwd));
                assert(slices@.map_values(|s: Slice<E>| slice_ops(s)) =~= copy_part);
            }
        } else {
            proof {
                // every port demanded exactly once: widths agree
                lemma_sum_lens_all_one(fwd);
                assert(sum_lens(fwd) == fwd.len());
                assert(all_single(fwd));
                assert(slices@.map_values(|s: Slice<E>| slice_ops(s)) =~= copy_part);
            }
        }
        // the swap layers, innermost first
        let ghost passes = swap_passes::<E>(self.backward_seq());
        proof {
            assert(passes == swap_slices@.map_values(|s: Slice<E>| slice_ops(s)));
            assert(passes.reverse().take(0) =~= Seq::<Seq<MonoidalOp<E>>>::empty());
            assert(slices@.map_values(|s: Slice<E>| slice_ops(s)) =~= copy_part
                + passes.reverse().take(0));
        }
        let mut j: usize = swap_slices.len();
        while j > 0
            invariant
                j <= swap_slices@.len(),
                self.wf(),
                passes == swap_slices@.map_values(|s: Slice<E>| slice_ops(s)),
                copy_part == (if all_single(self.forward_seq()) {
                    Seq::<Seq<MonoidalOp<E>>>::empty()
                } else {
                    seq![copy_layer::<E>(self.forward_seq())]
                }),
                slices@.map_values(|s: Slice<E>| slice_ops(s)) == copy_part + passes.reverse().take(
                    swap_slices@.len() - j,
                ),
                slices_compose(slices@, self.forward_len(), self.backward_len()),
                forall|q: int, m: int|
                    0 <= q < slices@.len() && 0 <= m < slice_ops(#[trigger] slices@[q]).len()
                        ==> ((#[trigger] slice_ops(slices@[q])[m]) is Copy || slice_ops(slices@[q])[m] is Swap),
                forall|q: int, m: int|
                    0 <= q < slices@.len() && 0 <= m < slices@[q].ops@.len()
                        ==> (#[trigger] slices@[q].ops@[m].1)@ == prefix@,
                forall|q: int| 0 <= q < swap_slices@.len() ==> {
                    &&& (#[trigger] swap_slices@[q]).spec_inputs() == self.backward_seq().len()
                    &&& swap_slices@[q].spec_outputs() == self.backward_seq().len()
                    &&& forall|m: int|
                        0 <= m < slice_ops(swap_slices@[q]).len() ==> is_swap_or_id(
                            #[trigger] slice_ops(swap_slices@[q])[m],
                        )
                    &&& forall|m: int|
                        0 <= m < swap_slices@[q].ops@.len() ==> (#[trigger] swap_slices@[q].ops@[m].1)@ == prefix@
                },
            decreases j,
        {
            j -= 1;
            proof {
                assert(forall|m: int|
                    0 <= m < swap_slices@[j as int].ops@.len() ==> slice_ops(swap_slices@[j as int])[m]
                        == #[trigger] swap_slices@[j as int].ops@[m].0);
            }
            let s = Slice { ops: clone_op_items(&swap_slices[j].ops) };
            proof {
                assert(slice_ops(s) =~= slice_ops(swap_slices@[j as int]));
                assert forall|m: int| 0 <= m < s.ops@.len() implies (#[trigger] s.ops@[m].1)@ == prefix@ by {
                    assert(s.ops@[m].0 == swap_slices@[j as int].ops@[m].0);
                    assert(s.ops@[m].1@ == swap_slices@[j as int].ops@[m].1@);
                    assert((swap_slices@[j as int].ops@[m].1)@ == prefix@);
                }
                assert(s.spec_inputs() == self.backward_len());
                assert(s.spec_outputs() == self.backward_len());
                crate::monoidal::lemma_slices_compose_push(
                    slices@,
                    s,
                    self.forward_len(),
                    self.backward_len(),
                    self.backward_len(),
                );
            }
            let ghost pre_slices = slices@;
            slices.push(s);
            proof {
                assert(slices@.map_values(|s2: Slice<E>| slice_ops(s2)) =~= pre_slices.map_values(
                    |s2: Slice<E>| slice_ops(s2),
                ).push(slice_ops(s)));
                assert(slice_ops(s) == passes[j as int]);
                assert(passes.reverse()[passes.len() - 1 - j] == passes[j as int]);
                assert(passes.reverse().take(swap_slices@.len() - j) =~= passes.reverse().take(
                    swap_slices@.len() - (j + 1),
                ).push(passes.reverse()[passes.len() - 1 - j]));
                assert(slices@.map_values(|s2: Slice<E>| slice_ops(s2)) =~= copy_part
                    + passes.reverse().take(swap_slices@.len() - j));
            }
        }
        proof {
            assert(passes.reverse().take(swap_slices@.len() as int) =~= passes.reverse());
            assert(slices@.map_values(|s2: Slice<E>| slice_ops(s2)) =~= lowered_layers::<E>(*self));
        }
        slices
    }
}

/// A layer of fan-out operations matching `forward` consumes one wire per
/// port and produces the total demand.
proof fn lemma_copy_layer_sums<E>(ops: Seq<MonoidalOp<E>>, fwd: Seq<Seq<usize>>)
    requires
        ops.len() == fwd.len(),
        forall|m: int|
            0 <= m < ops.len() ==> #[trigger] ops[m] == (MonoidalOp::<E>::Copy {
                copies: fwd[m].len() as usize,
            }),
        forall|m: int| 0 <= m < fwd.len() ==> #[trigger] fwd[m].len() <= usize::MAX,
    ensures
        sum_inputs(ops) == ops.len(),
        sum_outputs(ops) == sum_lens(fwd),
    decreases ops.len(),
{
    if ops.len() > 0 {
        assert(forall|m: int| 0 <= m < ops.len() - 1 ==> ops.drop_last()[m] == ops[m]);
        assert(forall|m: int| 0 <= m < fwd.len() - 1 ==> fwd.drop_last()[m] == fwd[m]);
        lemma_copy_layer_sums(ops.drop_last(), fwd.drop_last());
        lemma_sum_push_in(ops.drop_last(), ops.last());
        lemma_sum_push_out(ops.drop_last(), ops.last());
        assert(ops.drop_last().push(ops.last()) =~= ops);
    }
}



proof fn lemma_sum_lens_all_one(fwd: Seq<Seq<usize>>)
    requires
        forall|m: int| 0 <= m < fwd.len() ==> (#[trigger] fwd[m]).len() == 1,
    ensures
        sum_lens(fwd) == fwd.len(),
    decreases fwd.len(),
{
    if fwd.len() > 0 {
        assert(forall|m: int| 0 <= m < fwd.len() - 1 ==> fwd.drop_last()[m] == fwd[m]);
        lemma_sum_lens_all_one(fwd.drop_last());
    }
}

/// Copies a vector of demand positions.
fn clone_usize_vec(v: &Vec<usize>) -> (r: Vec<usize>)
    ensures
        r@ == v@,
{
    let mut r: Vec<usize> = Vec::new();
    let mut i: usize = 0;
    while i < v.len()
        invariant
            i <= v@.len(),
            r@ == v@.take(i as int),
        decreases v@.len() - i,
    {
        r.push(v[i]);
        proof {
            assert(v@.take(i + 1) =~= v@.take(i as int).push(v@[i as int]));
        }
        i += 1;
    }
    proof {
        assert(v@.take(v@.len() as int) =~= v@);
    }
    r
}

/// Copies a borrowed path into an owned vector.
fn clone_index_vec(path: &[NodeIndex]) -> (r: Vec<NodeIndex>)
    ensures
        r@ == path@,
{
    let mut r: Vec<NodeIndex> = Vec::new();
    let mut i: usize = 0;
    while i < path.len()
        invariant
            i <= path@.len(),
            r@ == path@.take(i as int),
        decreases path@.len() - i,
    {
        r.push(path[i]);
        proof {
            assert(path@.take(i + 1) =~= path@.take(i as int).push(path@[i as int]));
        }
        i += 1;
    }
    proof {
        assert(path@.take(path@.len() as int) =~= path@);
    }
    r
}

/// Copies a slice's operation list (wiring layers hold only copies and
/// swaps, which have no nested data).
fn clone_op_items<E>(items: &Vec<(MonoidalOp<E>, Vec<NodeIndex>)>) -> (r: Vec<(MonoidalOp<E>, Vec<NodeIndex>)>)
    requires
        forall|m: int|
            0 <= m < items@.len() ==> is_swap_or_id(#[trigger] items@[m].0),
    ensures
        r@.len() == items@.len(),
        forall|m: int| 0 <= m < r@.len() ==> #[trigger] r@[m].0 == items@[m].0
            && r@[m].1@ == items@[m].1@,
    {
    let mut r: Vec<(MonoidalOp<E>, Vec<NodeIndex>)> = Vec::new();
    let mut i: usize = 0;
    while i < items.len()
        invariant
            forall|m: int|
                0 <= m < items@.len() ==> is_swap_or_id(#[trigger] items@[m].0),
            i <= items@.len(),
            r@.len() == i,
            forall|m: int| 0 <= m < i ==> #[trigger] r@[m].0 == items@[m].0
                && r@[m].1@ == items@[m].1@,
        decreases items@.len() - i,
    {
        let addr = clone_index_vec(items[i].1.as_slice());
        let op: MonoidalOp<E> = if matches!(&items[i].0, MonoidalOp::Swap) {
            MonoidalOp::Swap
        } else {
            MonoidalOp::Copy { copies: 1 }
        };
        r.push((op, addr));
        i += 1;
    }
    r
}

} // verus!
