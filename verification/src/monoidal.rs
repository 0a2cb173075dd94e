//! Monoidal graphs: the sliced, arity-matched diagram representation a
//! hypergraph is lowered into, plus the explicit wiring layers (copies and
//! adjacent swaps) that resolve fan-out and wire order between slices.

use vstd::prelude::*;
use crate::hypergraph::NodeIndex;

verus! {

broadcast use vstd::seq_lib::lemma_seq_contains_after_push;

/// A slice of parallel operations in the flattened monoidal graph.  Each
/// operation carries the arena path (thunk-nesting prefix plus node index)
/// it originated from.
#[derive(Debug, PartialEq, Eq)]
pub struct Slice<E> {
    pub ops: Vec<(MonoidalOp<E>, Vec<NodeIndex>)>,
}

/// A monoidal graph: a fixed number of entering wires and a sequence of
/// slices whose arities compose.
#[derive(Debug, PartialEq, Eq)]
pub struct MonoidalGraph<E> {
    pub inputs: usize,
    pub slices: Vec<Slice<E>>,
}

/// One operation of a flattened slice.
#[derive(Debug, PartialEq, Eq)]
pub enum MonoidalOp<E> {
    /// An `n`-way fan-out of one wire; `copies == 0` deletes the wire and
    /// `copies == 1` is an identity wire.
    Copy { copies: usize },
    /// A leaf operation consuming `inputs` wires and producing one.
    Operation { inputs: usize, op_name: E },
    /// A nested diagram; consumes the thunk's captured wires and produces one.
    Thunk { args: usize, body: MonoidalGraph<E>, expanded: bool },
    /// Exchange of two adjacent wires.
    Swap,
}

impl<E> MonoidalGraph<E> {
    /// Arity invariant of every operation in every slice, recursively
    /// through nested thunk bodies.
    pub open spec fn arity_wf(self) -> bool
        decreases self,
    {
        forall|i: int, m: int|
            0 <= i < self.slices@.len() && 0 <= m < self.slices@[i].ops@.len()
                ==> (#[trigger] self.slices@[i].ops@[m].0).arity_wf()
    }

    /// Arity composition: adjacent slices agree on their wire count and the
    /// first slice consumes exactly `inputs` wires.
    pub open spec fn arity_ok(self) -> bool {
        &&& self.slices@.len() > 0 ==> self.slices@[0].spec_inputs() == self.inputs
        &&& forall|i: int|
            0 <= i < self.slices@.len() - 1 ==> (#[trigger] self.slices@[i]).spec_outputs()
                == self.slices@[i + 1].spec_inputs()
    }
}

impl<E> MonoidalOp<E> {
    /// Arity invariant: a thunk's declared argument count never exceeds its
    /// body's wire count, recursively.
    pub open spec fn arity_wf(self) -> bool
        decreases self,
    {
        match self {
            MonoidalOp::Thunk { args, body, expanded } => args <= body.inputs && body.arity_wf(),
            _ => true,
        }
    }

    /// Number of wires entering the operation.
    pub open spec fn spec_inputs(self) -> int {
        match self {
            MonoidalOp::Copy { copies } => 1,
            MonoidalOp::Operation { inputs, op_name } => inputs as int,
            MonoidalOp::Thunk { args, body, expanded } => body.inputs - args,
            MonoidalOp::Swap => 2,
        }
    }

    /// Number of wires leaving the operation.
    pub open spec fn spec_outputs(self) -> int {
        match self {
            MonoidalOp::Copy { copies } => copies as int,
            MonoidalOp::Operation { inputs, op_name } => 1,
            MonoidalOp::Thunk { args, body, expanded } => 1,
            MonoidalOp::Swap => 2,
        }
    }

    /// Returns number of inputs of an operation.
    pub fn number_of_inputs(&self) -> (r: usize)
        requires
            self.arity_wf(),
        ensures
            r == self.spec_inputs(),
    {
        match self {
            MonoidalOp::Copy { .. } => 1,
            MonoidalOp::Operation { inputs, .. } => *inputs,
            MonoidalOp::Thunk { args, body, .. } => body.inputs - *args,
            MonoidalOp::Swap => 2,
        }
    }

    /// Returns number of outputs of an operation.
    pub fn number_of_outputs(&self) -> (r: usize)
        ensures
            r == self.spec_outputs(),
    {
        match self {
            MonoidalOp::Copy { copies } => *copies,
            MonoidalOp::Operation { .. } => 1,
            MonoidalOp::Thunk { .. } => 1,
            MonoidalOp::Swap => 2,
        }
    }
}

/// The bare operations of a slice, stripped of their arena addresses.
pub open spec fn slice_ops<E>(s: Slice<E>) -> Seq<MonoidalOp<E>> {
    s.ops@.map_values(|pr: (MonoidalOp<E>, Vec<NodeIndex>)| pr.0)
}

/// Total wires entering a sequence of parallel operations.
pub open spec fn sum_inputs<E>(ops: Seq<MonoidalOp<E>>) -> int
    decreases ops.len(),
{
    if ops.len() == 0 {
        0
    } else {
        ops[0].spec_inputs() + sum_inputs(ops.drop_first())
    }
}

/// Total wires leaving a sequence of parallel operations.
pub open spec fn sum_outputs<E>(ops: Seq<MonoidalOp<E>>) -> int
    decreases ops.len(),
{
    if ops.len() == 0 {
        0
    } else {
        ops[0].spec_outputs() + sum_outputs(ops.drop_first())
    }
}

impl<E> Slice<E> {
    /// Every operation of the slice satisfies the thunk-arity invariant.
    pub open spec fn arity_wf(self) -> bool {
        forall|m: int| 0 <= m < slice_ops(self).len() ==> (#[trigger] slice_ops(self)[m]).arity_wf()
    }

    pub open spec fn spec_inputs(self) -> int {
        sum_inputs(slice_ops(self))
    }

    pub open spec fn spec_outputs(self) -> int {
        sum_outputs(slice_ops(self))
    }

    /// Returns the number of wires entering the slice.
    pub fn number_of_inputs(&self) -> (r: usize)
        requires
            self.arity_wf(),
            self.spec_inputs() <= usize::MAX,
        ensures
            r == self.spec_inputs(),
    {
        let mut total: usize = 0;
        let mut m: usize = 0;
        proof {
            assert(slice_ops(*self).take(0) =~= Seq::<MonoidalOp<E>>::empty());
            assert(slice_ops(*self).skip(0) =~= slice_ops(*self));
            lemma_sum_inputs_nonneg(slice_ops(*self));
        }
        while m < self.ops.len()
            invariant
                self.arity_wf(),
                self.spec_inputs() <= usize::MAX,
                m <= self.ops@.len(),
                total == sum_inputs(slice_ops(*self).take(m as int)),
                sum_inputs(slice_ops(*self).take(m as int)) + sum_inputs(slice_ops(*self).skip(m as int)) == self.spec_inputs(),
                sum_inputs(slice_ops(*self).skip(m as int)) >= 0,
            decreases self.ops@.len() - m,
        {
            proof {
                lemma_sum_inputs_step(slice_ops(*self), m as int);
                lemma_sum_inputs_nonneg(slice_ops(*self).skip(m + 1));
            }
            total = total + self.ops[m].0.number_of_inputs();
            m += 1;
        }
        proof {
            assert(slice_ops(*self).take(self.ops@.len() as int) =~= slice_ops(*self));
        }
        total
    }

    /// Returns the number of wires leaving the slice.
    pub fn number_of_outputs(&self) -> (r: usize)
        requires
            self.spec_outputs() <= usize::MAX,
        ensures
            r == self.spec_outputs(),
    {
        let mut total: usize = 0;
        let mut m: usize = 0;
        proof {
            assert(slice_ops(*self).take(0) =~= Seq::<MonoidalOp<E>>::empty());
            assert(slice_ops(*self).skip(0) =~= slice_ops(*self));
            lemma_sum_outputs_nonneg(slice_ops(*self));
        }
        while m < self.ops.len()
            invariant
                self.spec_outputs() <= usize::MAX,
                m <= self.ops@.len(),
                total == sum_outputs(slice_ops(*self).take(m as int)),
                sum_outputs(slice_ops(*self).take(m as int)) + sum_outputs(slice_ops(*self).skip(m as int)) == self.spec_outputs(),
                sum_outputs(slice_ops(*self).skip(m as int)) >= 0,
            decreases self.ops@.len() - m,
        {
            proof {
                lemma_sum_outputs_step(slice_ops(*self), m as int);
                lemma_sum_outputs_nonneg(slice_ops(*self).skip(m + 1));
            }
            total = total + self.ops[m].0.number_of_outputs();
            m += 1;
        }
        proof {
            assert(slice_ops(*self).take(self.ops@.len() as int) =~= slice_ops(*self));
        }
        total
    }
}

proof fn lemma_sum_inputs_nonneg<E>(ops: Seq<MonoidalOp<E>>)
    requires
        forall|m: int| 0 <= m < ops.len() ==> (#[trigger] ops[m]).arity_wf(),
    ensures
        sum_inputs(ops) >= 0,
    decreases ops.len(),
{
    if ops.len() > 0 {
        assert(forall|m: int| 0 <= m < ops.len() - 1 ==> ops.drop_first()[m] == ops[m + 1]);
        lemma_sum_inputs_nonneg(ops.drop_first());
    }
}

proof fn lemma_sum_outputs_nonneg<E>(ops: Seq<MonoidalOp<E>>)
    ensures
        sum_outputs(ops) >= 0,
    decreases ops.len(),
{
    if ops.len() > 0 {
        lemma_sum_outputs_nonneg(ops.drop_first());
    }
}

/// Splitting a parallel sum at position `m`.
proof fn lemma_sum_inputs_step<E>(ops: Seq<MonoidalOp<E>>, m: int)
    requires
        0 <= m < ops.len(),
    ensures
        sum_inputs(ops.skip(m)) == ops[m].spec_inputs() + sum_inputs(ops.skip(m + 1)),
        sum_inputs(ops.take(m + 1)) == sum_inputs(ops.take(m)) + ops[m].spec_inputs(),
    decreases ops.len(),
{
    assert(ops.skip(m).drop_first() =~= ops.skip(m + 1));
    assert(ops.skip(m)[0] == ops[m]);
    lemma_sum_take_snoc(ops, m);
}

proof fn lemma_sum_take_snoc<E>(ops: Seq<MonoidalOp<E>>, m: int)
    requires
        0 <= m < ops.len(),
    ensures
        sum_inputs(ops.take(m + 1)) == sum_inputs(ops.take(m)) + ops[m].spec_inputs(),
        sum_outputs(ops.take(m + 1)) == sum_outputs(ops.take(m)) + ops[m].spec_outputs(),
    decreases m,
{
    if m == 0 {
        assert(ops.take(1) =~= seq![ops[0]]);
        assert(ops.take(1).drop_first() =~= Seq::<MonoidalOp<E>>::empty());
        assert(ops.take(0) =~= Seq::<MonoidalOp<E>>::empty());
    } else {
        assert(ops.take(m + 1).drop_first() =~= ops.drop_first().take(m));
        assert(ops.take(m).drop_first() =~= ops.drop_first().take(m - 1));
        assert(ops.drop_first()[m - 1] == ops[m]);
        lemma_sum_take_snoc(ops.drop_first(), m - 1);
    }
}

proof fn lemma_sum_outputs_step<E>(ops: Seq<MonoidalOp<E>>, m: int)
    requires
        0 <= m < ops.len(),
    ensures
        sum_outputs(ops.skip(m)) == ops[m].spec_outputs() + sum_outputs(ops.skip(m + 1)),
        sum_outputs(ops.take(m + 1)) == sum_outputs(ops.take(m)) + ops[m].spec_outputs(),
    decreases ops.len(),
{
    assert(ops.skip(m).drop_first() =~= ops.skip(m + 1));
    assert(ops.skip(m)[0] == ops[m]);
    lemma_sum_take_snoc(ops, m);
}


/// The slices compose as a chain from `a` entering wires to `b` leaving
/// wires: adjacent slices agree, the first consumes `a`, the last produces
/// `b`, and an empty chain forces `a == b`.
pub open spec fn slices_compose<E>(slices: Seq<Slice<E>>, a: int, b: int) -> bool {
    &&& (slices.len() == 0 ==> a == b)
    &&& (slices.len() > 0 ==> slices[0].spec_inputs() == a && slices[slices.len() - 1].spec_outputs() == b)
    &&& forall|i: int|
        0 <= i < slices.len() - 1 ==> (#[trigger] slices[i]).spec_outputs() == slices[i + 1].spec_inputs()
}

/// Extending a composing chain by one matching slice.
pub proof fn lemma_slices_compose_push<E>(slices: Seq<Slice<E>>, s: Slice<E>, a: int, b: int, c: int)
    requires
        slices_compose(slices, a, b),
        s.spec_inputs() == b,
        s.spec_outputs() == c,
    ensures
        slices_compose(slices.push(s), a, c),
{
    let post = slices.push(s);
    assert(post[post.len() - 1] == s);
    assert forall|i: int| 0 <= i < post.len() - 1 implies (#[trigger] post[i]).spec_outputs()
        == post[i + 1].spec_inputs() by {
        if i < slices.len() - 1 {
            assert(post[i] == slices[i] && post[i + 1] == slices[i + 1]);
        } else {
            assert(i == slices.len() - 1);
            assert(post[i] == slices[i] && post[i + 1] == s);
        }
    }
    if slices.len() > 0 {
        assert(post[0] == slices[0]);
    }
}


pub proof fn lemma_sum_push_in<E>(ops: Seq<MonoidalOp<E>>, x: MonoidalOp<E>)
    ensures
        sum_inputs(ops.push(x)) == sum_inputs(ops) + x.spec_inputs(),
    decreases ops.len(),
{
    if ops.len() == 0 {
        assert(ops.push(x).drop_first() =~= Seq::<MonoidalOp<E>>::empty());
        assert(ops.push(x)[0] == x);
        assert(sum_inputs(Seq::<MonoidalOp<E>>::empty()) == 0);
    } else {
        assert(ops.push(x).drop_first() =~= ops.drop_first().push(x));
        assert(ops.push(x)[0] == ops[0]);
        lemma_sum_push_in(ops.drop_first(), x);
    }
}

pub proof fn lemma_sum_push_out<E>(ops: Seq<MonoidalOp<E>>, x: MonoidalOp<E>)
    ensures
        sum_outputs(ops.push(x)) == sum_outputs(ops) + x.spec_outputs(),
    decreases ops.len(),
{
    if ops.len() == 0 {
        assert(ops.push(x).drop_first() =~= Seq::<MonoidalOp<E>>::empty());
        assert(ops.push(x)[0] == x);
        assert(sum_outputs(Seq::<MonoidalOp<E>>::empty()) == 0);
    } else {
        assert(ops.push(x).drop_first() =~= ops.drop_first().push(x));
        assert(ops.push(x)[0] == ops[0]);
        lemma_sum_push_out(ops.drop_first(), x);
    }
}

/// An operation a wire-permutation layer may hold: an identity wire or an
/// adjacent swap.
pub open spec fn is_swap_or_id<E>(op: MonoidalOp<E>) -> bool {
    op == MonoidalOp::<E>::Swap || op == (MonoidalOp::<E>::Copy { copies: 1 })
}

/// What a layer of identity wires and adjacent swaps does to the values
/// carried by the wires entering it.
pub open spec fn apply_layer<E>(ops: Seq<MonoidalOp<E>>, xs: Seq<usize>) -> Seq<usize>
    decreases ops.len(),
{
    if ops.len() == 0 {
        Seq::empty()
    } else if ops[0] == MonoidalOp::<E>::Swap {
        seq![xs[1], xs[0]] + apply_layer(ops.drop_first(), xs.skip(2))
    } else {
        seq![xs[0]] + apply_layer(ops.drop_first(), xs.skip(1))
    }
}

/// Applying a list of layers front to back.
pub open spec fn apply_layers<E>(layers: Seq<Seq<MonoidalOp<E>>>, xs: Seq<usize>) -> Seq<usize>
    decreases layers.len(),
{
    if layers.len() == 0 {
        xs
    } else {
        apply_layers(layers.drop_first(), apply_layer(layers[0], xs))
    }
}

/// Applying a list of layers back to front.
pub open spec fn apply_layers_rev<E>(layers: Seq<Seq<MonoidalOp<E>>>, xs: Seq<usize>) -> Seq<usize>
    decreases layers.len(),
{
    if layers.len() == 0 {
        xs
    } else {
        apply_layer(layers[0], apply_layers_rev(layers.drop_first(), xs))
    }
}

/// Number of entries of `s` strictly below `v`.
pub open spec fn count_lt(s: Seq<usize>, v: usize) -> nat
    decreases s.len(),
{
    if s.len() == 0 {
        0
    } else {
        (if s[0] < v { 1nat } else { 0 }) + count_lt(s.drop_first(), v)
    }
}

/// Number of inversions (out-of-order pairs) of `s`.
pub open spec fn invs(s: Seq<usize>) -> nat
    decreases s.len(),
{
    if s.len() == 0 {
        0
    } else {
        count_lt(s.drop_first(), s[0]) + invs(s.drop_first())
    }
}

/// Every adjacent pair of `s` is in order.
pub open spec fn sorted(s: Seq<usize>) -> bool {
    forall|i: int| 0 <= i < s.len() - 1 ==> #[trigger] s[i] <= s[i + 1]
}

/// The identity wire ordering on `n` wires.
pub open spec fn identity_perm(n: nat) -> Seq<usize> {
    Seq::new(n, |i: int| i as usize)
}

/// `s` is a permutation of `0 .. s.len()`.
pub open spec fn is_permutation(s: Seq<usize>) -> bool {
    &&& forall|i: int| 0 <= i < s.len() ==> #[trigger] s[i] < s.len()
    &&& forall|i: int, j: int| 0 <= i < j < s.len() ==> s[i] != s[j]
}

/// One left-to-right adjacent-swap pass over `s`: the emitted layer, the
/// reordered sequence, and whether any swap was made.
pub open spec fn swap_pass<E>(s: Seq<usize>) -> (Seq<MonoidalOp<E>>, Seq<usize>, bool)
    decreases s.len(),
{
    if s.len() == 0 {
        (Seq::empty(), Seq::empty(), false)
    } else if s.len() == 1 {
        (seq![MonoidalOp::<E>::Copy { copies: 1 }], s, false)
    } else if s[0] <= s[1] {
        let (ops, t, sw) = swap_pass::<E>(s.drop_first());
        (seq![MonoidalOp::<E>::Copy { copies: 1 }] + ops, seq![s[0]] + t, sw)
    } else {
        let (ops, t, sw) = swap_pass::<E>(s.skip(2));
        (seq![MonoidalOp::<E>::Swap] + ops, seq![s[1], s[0]] + t, true)
    }
}

proof fn lemma_count_lt_single(a: usize, v: usize)
    ensures
        count_lt(seq![a], v) == (if a < v { 1int } else { 0int }),
{
    assert(seq![a].drop_first() =~= Seq::<usize>::empty());
    assert(count_lt(Seq::<usize>::empty(), v) == 0);
}

proof fn lemma_count_lt_pair(a: usize, b: usize, v: usize)
    ensures
        count_lt(seq![a, b], v) == (if a < v { 1int } else { 0int }) + (if b < v { 1int } else { 0int }),
{
    assert(seq![a, b].drop_first() =~= seq![b]);
    lemma_count_lt_single(b, v);
}

proof fn lemma_count_lt_concat(a: Seq<usize>, b: Seq<usize>, v: usize)
    ensures
        count_lt(a + b, v) == count_lt(a, v) + count_lt(b, v),
    decreases a.len(),
{
    if a.len() == 0 {
        assert(a + b =~= b);
    } else {
        assert((a + b).drop_first() =~= a.drop_first() + b);
        lemma_count_lt_concat(a.drop_first(), b, v);
    }
}

proof fn lemma_invs_cons(x: usize, t: Seq<usize>)
    ensures
        invs(seq![x] + t) == count_lt(t, x) + invs(t),
    decreases t.len(),
{
    assert((seq![x] + t).drop_first() =~= t);
}

/// The properties of one adjacent-swap pass, all at once: it emits a full
/// width wiring layer that maps the old ordering to the new one, keeps the
/// entries (counts below any bound are unchanged, duplicates are not
/// created, no new values appear), reports `false` exactly when the input
/// was already sorted, and strictly reduces the inversion count otherwise.
proof fn lemma_swap_pass<E>(s: Seq<usize>)
    ensures
        ({
            let (ops, t, sw) = swap_pass::<E>(s);
            &&& t.len() == s.len()
            &&& forall|m: int| 0 <= m < ops.len() ==> is_swap_or_id(#[trigger] ops[m])
            &&& sum_inputs(ops) == s.len()
            &&& sum_outputs(ops) == s.len()
            &&& apply_layer(ops, s) == t
            &&& forall|v: usize| count_lt(t, v) == count_lt(s, v)
            &&& forall|v: usize| t.contains(v) ==> s.contains(v)
            &&& (forall|i: int, j: int| 0 <= i < j < s.len() ==> s[i] != s[j])
                ==> (forall|i: int, j: int| 0 <= i < j < t.len() ==> t[i] != t[j])
            &&& !sw ==> t == s && sorted(s)
            &&& sw ==> invs(t) < invs(s)
            &&& invs(t) <= invs(s)
        }),
    decreases s.len(),
{
    let (ops, t, sw) = swap_pass::<E>(s);
    if s.len() == 0 {
    } else if s.len() == 1 {
        assert(ops.drop_first() =~= Seq::<MonoidalOp<E>>::empty());
        assert(sum_inputs(Seq::<MonoidalOp<E>>::empty()) == 0);
        assert(sum_outputs(Seq::<MonoidalOp<E>>::empty()) == 0);
        assert(apply_layer(Seq::<MonoidalOp<E>>::empty(), s.skip(1)) == Seq::<usize>::empty());
        assert(apply_layer(ops, s) == seq![s[0]] + Seq::<usize>::empty());
        assert(apply_layer(ops, s) =~= t);
        assert(s.drop_first() =~= Seq::<usize>::empty());
    } else if s[0] <= s[1] {
        let rest = s.drop_first();
        let (ops1, t1, sw1) = swap_pass::<E>(rest);
        lemma_swap_pass::<E>(rest);
        assert(ops =~= seq![MonoidalOp::<E>::Copy { copies: 1 }] + ops1);
        assert(t =~= seq![s[0]] + t1);
        assert(ops.drop_first() =~= ops1);
        assert(sum_inputs(ops) == 1 + sum_inputs(ops1));
        assert(sum_outputs(ops) == 1 + sum_outputs(ops1));
        // the layer reproduces the pass
        assert(s.skip(1) =~= rest);
        assert(apply_layer(ops, s) =~= seq![s[0]] + apply_layer(ops1, rest));
        // counts
        assert forall|v: usize| count_lt(t, v) == count_lt(s, v) by {
            lemma_count_lt_concat(seq![s[0]], t1, v);
            lemma_count_lt_concat(seq![s[0]], rest, v);
            assert(s =~= seq![s[0]] + rest);
        }
        // membership
        assert forall|v: usize| t.contains(v) implies s.contains(v) by {
            if v == s[0] {
                assert(s[0] == s[0] && s.contains(s[0]));
            } else {
                let m = choose|m: int| 0 <= m < t.len() && t[m] == v;
                assert(t1[m - 1] == v);
                assert(t1.contains(v));
                assert(rest.contains(v));
                let m2 = choose|m2: int| 0 <= m2 < rest.len() && rest[m2] == v;
                assert(s[m2 + 1] == v);
            }
        }
        // distinctness
        if forall|i: int, j: int| 0 <= i < j < s.len() ==> s[i] != s[j] {
            assert(forall|i: int, j: int| 0 <= i < j < rest.len() ==> rest[i] != rest[j]) by {
                assert(forall|i: int| 0 <= i < rest.len() ==> rest[i] == s[i + 1]);
            }
            assert forall|i: int, j: int| 0 <= i < j < t.len() implies t[i] != t[j] by {
                if i == 0 {
                    // t[0] == s[0] does not reoccur in t1 because t1's
                    // entries all come from rest
                    if t[j] == s[0] {
                        assert(t1.contains(t1[j - 1]));
                        assert(rest.contains(s[0]));
                        let m2 = choose|m2: int| 0 <= m2 < rest.len() && rest[m2] == s[0];
                        assert(s[m2 + 1] == s[0]);
                        assert(false);
                    }
                } else {
                    assert(t[i] == t1[i - 1] && t[j] == t1[j - 1]);
                }
            }
        }
        // sortedness bookkeeping
        if !sw {
            assert(t1 == rest && sorted(rest));
            assert(t =~= s);
            assert forall|i: int| 0 <= i < s.len() - 1 implies #[trigger] s[i] <= s[i + 1] by {
                if i > 0 {
                    assert(rest[i - 1] <= rest[i]);
                }
            }
        }
        // inversions
        lemma_invs_cons(s[0], rest);
        lemma_invs_cons(s[0], t1);
        assert(invs(s) == count_lt(rest, s[0]) + invs(rest));
        assert(invs(t) == count_lt(t1, s[0]) + invs(t1));
        assert(count_lt(t1, s[0]) == count_lt(rest, s[0]));
    } else {
        let rest = s.skip(2);
        let (ops1, t1, sw1) = swap_pass::<E>(rest);
        lemma_swap_pass::<E>(rest);
        assert(ops =~= seq![MonoidalOp::<E>::Swap] + ops1);
        assert(t =~= seq![s[1], s[0]] + t1);
        assert(ops.drop_first() =~= ops1);
        assert(ops[0] == MonoidalOp::<E>::Swap);
        assert(sum_inputs(ops) == 2 + sum_inputs(ops1));
        assert(sum_outputs(ops) == 2 + sum_outputs(ops1));
        assert(apply_layer(ops, s) =~= seq![s[1], s[0]] + apply_layer(ops1, rest));
        // counts
        assert forall|v: usize| count_lt(t, v) == count_lt(s, v) by {
            lemma_count_lt_concat(seq![s[1], s[0]], t1, v);
            lemma_count_lt_concat(seq![s[0], s[1]], rest, v);
            assert(s =~= seq![s[0], s[1]] + rest);
            lemma_count_lt_pair(s[1], s[0], v);
            lemma_count_lt_pair(s[0], s[1], v);
        }
        // membership
        assert forall|v: usize| t.contains(v) implies s.contains(v) by {
            if v == s[0] || v == s[1] {
                assert(s.contains(s[0]) && s.contains(s[1]));
            } else {
                let m = choose|m: int| 0 <= m < t.len() && t[m] == v;
                assert(t1[m - 2] == v);
                assert(t1.contains(v));
                assert(rest.contains(v));
                let m2 = choose|m2: int| 0 <= m2 < rest.len() && rest[m2] == v;
                assert(s[m2 + 2] == v);
            }
        }
        // distinctness
        if forall|i: int, j: int| 0 <= i < j < s.len() ==> s[i] != s[j] {
            assert(forall|i: int, j: int| 0 <= i < j < rest.len() ==> rest[i] != rest[j]) by {
                assert(forall|i: int| 0 <= i < rest.len() ==> rest[i] == s[i + 2]);
            }
            assert forall|i: int, j: int| 0 <= i < j < t.len() implies t[i] != t[j] by {
                if j >= 2 {
                    assert(t[j] == t1[j - 2]);
                    assert(t1.contains(t1[j - 2]));
                    assert(rest.contains(t[j]));
                    let m2 = choose|m2: int| 0 <= m2 < rest.len() && rest[m2] == t[j];
                    assert(s[m2 + 2] == t[j]);
                    if i >= 2 {
                        assert(t[i] == t1[i - 2]);
                    } else {
                        assert(t[i] == s[1 - i]);
                    }
                } else {
                    assert(i == 0 && j == 1);
                    assert(t[0] == s[1] && t[1] == s[0]);
                }
            }
        }
        // inversions: the swapped pair loses exactly one inversion and the
        // counts against the suffix are symmetric
        lemma_invs_cons(s[1], rest);
        lemma_invs_cons(s[0], seq![s[1]] + rest);
        lemma_invs_cons(s[0], rest);
        lemma_invs_cons(s[1], seq![s[0]] + t1);
        lemma_invs_cons(s[0], t1);
        assert(s =~= seq![s[0]] + (seq![s[1]] + rest));
        assert(t =~= seq![s[1]] + (seq![s[0]] + t1));
        lemma_count_lt_concat(seq![s[1]], rest, s[0]);
        lemma_count_lt_concat(seq![s[0]], t1, s[1]);
        lemma_count_lt_single(s[1], s[0]);
        lemma_count_lt_single(s[0], s[1]);
        assert(invs(s) == 1 + count_lt(rest, s[0]) + count_lt(rest, s[1]) + invs(rest));
        assert(invs(t) == count_lt(t1, s[1]) + count_lt(t1, s[0]) + invs(t1));
        assert(count_lt(t1, s[0]) == count_lt(rest, s[0]));
        assert(count_lt(t1, s[1]) == count_lt(rest, s[1]));
        assert(invs(t) < invs(s));
    }
}

/// The layers `permutation_to_swaps` emits: one layer per bubble pass
/// that makes at least one swap, in emission order, ending when a pass
/// finds the sequence sorted.
pub open spec fn swap_passes<E>(s: Seq<usize>) -> Seq<Seq<MonoidalOp<E>>>
    decreases invs(s),
    when invs(s) >= 0
    via swap_passes_decreases::<E>
{
    if !swap_pass::<E>(s).2 {
        Seq::empty()
    } else {
        seq![swap_pass::<E>(s).0] + swap_passes::<E>(swap_pass::<E>(s).1)
    }
}

#[via_fn]
proof fn swap_passes_decreases<E>(s: Seq<usize>) {
    lemma_swap_pass::<E>(s);
}

/// Each emitted layer removes at least one inversion, so the layer count
/// is bounded by the inversion count of the ordering.
pub proof fn lemma_swap_passes_len<E>(s: Seq<usize>)
    ensures
        swap_passes::<E>(s).len() <= invs(s),
    decreases invs(s),
{
    lemma_swap_pass::<E>(s);
    let (ops, t, sw) = swap_pass::<E>(s);
    if sw {
        lemma_swap_passes_len::<E>(t);
    }
}

/// A wiring layer of identity wires and swaps undoes itself.
proof fn lemma_apply_layer_involutive<E>(ops: Seq<MonoidalOp<E>>, xs: Seq<usize>)
    requires
        forall|m: int| 0 <= m < ops.len() ==> is_swap_or_id(#[trigger] ops[m]),
        sum_inputs(ops) == xs.len(),
    ensures
        apply_layer(ops, xs).len() == xs.len(),
        apply_layer(ops, apply_layer(ops, xs)) == xs,
    decreases ops.len(),
{
    if ops.len() == 0 {
        assert(apply_layer(ops, xs) =~= xs);
        assert(apply_layer(ops, apply_layer(ops, xs)) =~= xs);
    } else {
        let rest_ops = ops.drop_first();
        assert(forall|m: int| 0 <= m < rest_ops.len() ==> rest_ops[m] == ops[m + 1]);
        assert(is_swap_or_id(ops[0]));
        assert(forall|m: int| 0 <= m < rest_ops.len() ==> (#[trigger] rest_ops[m]).arity_wf());
        lemma_sum_inputs_nonneg(rest_ops);
        assert(sum_inputs(ops) == ops[0].spec_inputs() + sum_inputs(rest_ops));
        if ops[0] == MonoidalOp::<E>::Swap {
            let rest_xs = xs.skip(2);
            lemma_apply_layer_involutive(rest_ops, rest_xs);
            let once = apply_layer(ops, xs);
            assert(once =~= seq![xs[1], xs[0]] + apply_layer(rest_ops, rest_xs));
            assert(once.len() == xs.len());
            assert(once[0] == xs[1] && once[1] == xs[0]);
            assert(once.skip(2) =~= apply_layer(rest_ops, rest_xs));
            assert(apply_layer(ops, once) =~= seq![once[1], once[0]] + apply_layer(
                rest_ops,
                once.skip(2),
            ));
            assert(apply_layer(ops, apply_layer(ops, xs)) =~= xs);
        } else {
            let rest_xs = xs.skip(1);
            lemma_apply_layer_involutive(rest_ops, rest_xs);
            let once = apply_layer(ops, xs);
            assert(once =~= seq![xs[0]] + apply_layer(rest_ops, rest_xs));
            assert(once.len() == xs.len());
            assert(once[0] == xs[0]);
            assert(once.skip(1) =~= apply_layer(rest_ops, rest_xs));
            assert(apply_layer(ops, once) =~= seq![once[0]] + apply_layer(
                rest_ops,
                once.skip(1),
            ));
            assert(apply_layer(ops, apply_layer(ops, xs)) =~= xs);
        }
    }
}

/// Appending a layer to a back-to-front chain applies it innermost.
proof fn lemma_apply_layers_rev_push<E>(layers: Seq<Seq<MonoidalOp<E>>>, l: Seq<MonoidalOp<E>>, xs: Seq<usize>)
    ensures
        apply_layers_rev(layers.push(l), xs) == apply_layers_rev(layers, apply_layer(l, xs)),
    decreases layers.len(),
{
    if layers.len() == 0 {
        assert(layers.push(l).drop_first() =~= Seq::<Seq<MonoidalOp<E>>>::empty());
        assert(layers.push(l)[0] == l);
        assert(apply_layers_rev(Seq::<Seq<MonoidalOp<E>>>::empty(), xs) == xs);
    } else {
        assert(layers.push(l).drop_first() =~= layers.drop_first().push(l));
        assert(layers.push(l)[0] == layers[0]);
        lemma_apply_layers_rev_push(layers.drop_first(), l, xs);
        assert(apply_layers_rev(layers.drop_first().push(l), xs) == apply_layers_rev(
            layers.drop_first(),
            apply_layer(l, xs),
        ));
    }
}

/// A sorted duplicate-free sequence of values below its length is the
/// identity ordering.
proof fn lemma_sorted_perm_is_identity(t: Seq<usize>)
    requires
        sorted(t),
        forall|i: int, j: int| 0 <= i < j < t.len() ==> t[i] != t[j],
        forall|i: int| 0 <= i < t.len() ==> #[trigger] t[i] < t.len(),
    ensures
        t =~= identity_perm(t.len()),
{
    assert forall|i: int| 0 <= i < t.len() implies t[i] == i by {
        lemma_sorted_perm_lower(t, i);
        lemma_sorted_perm_upper(t, i);
    }
}

proof fn lemma_sorted_perm_lower(t: Seq<usize>, i: int)
    requires
        sorted(t),
        forall|i1: int, j1: int| 0 <= i1 < j1 < t.len() ==> t[i1] != t[j1],
        0 <= i < t.len(),
    ensures
        t[i] >= i,
    decreases i,
{
    if i > 0 {
        lemma_sorted_perm_lower(t, i - 1);
        assert(t[i - 1] <= t[i]);
        assert(t[i - 1] != t[i]);
    }
}

proof fn lemma_sorted_perm_upper(t: Seq<usize>, i: int)
    requires
        sorted(t),
        forall|i1: int, j1: int| 0 <= i1 < j1 < t.len() ==> t[i1] != t[j1],
        forall|i1: int| 0 <= i1 < t.len() ==> #[trigger] t[i1] < t.len(),
        0 <= i < t.len(),
    ensures
        t[i] <= i,
    decreases t.len() - i,
{
    if i < t.len() - 1 {
        lemma_sorted_perm_upper(t, i + 1);
        assert(t[i] <= t[i + 1]);
        assert(t[i] != t[i + 1]);
    } else {
        assert(t[i] < t.len());
    }
}

impl<E> Slice<E> {
    /// Resolves the permutation `permutation` into a sequence of wiring
    /// layers made of identity wires and adjacent swaps (one left-to-right
    /// bubble pass per layer), tagging every emitted operation with the
    /// arena path `prefix`.  Applying the layers in order sorts the given
    /// ordering; applying them innermost-first to the identity ordering
    /// reproduces it (the round-trip law).
    pub fn permutation_to_swaps(permutation: Vec<usize>, prefix: &[NodeIndex]) -> (r: Vec<Slice<E>>)
        ensures
            // the layers are exactly the non-trivial bubble passes
            r@.map_values(|s: Slice<E>| slice_ops(s)) == swap_passes::<E>(permutation@),
            forall|j: int| 0 <= j < r@.len() ==> {
                &&& forall|m: int|
                    0 <= m < slice_ops(#[trigger] r@[j]).len() ==> is_swap_or_id(
                        #[trigger] slice_ops(r@[j])[m],
                    )
                &&& (#[trigger] r@[j]).spec_inputs() == permutation@.len()
                &&& r@[j].spec_outputs() == permutation@.len()
                &&& forall|m: int| 0 <= m < r@[j].ops@.len() ==> (#[trigger] r@[j].ops@[m].1)@ == prefix@
            },
            sorted(apply_layers(r@.map_values(|s: Slice<E>| slice_ops(s)), permutation@)),
            apply_layers_rev(
                r@.map_values(|s: Slice<E>| slice_ops(s)),
                apply_layers(r@.map_values(|s: Slice<E>| slice_ops(s)), permutation@),
            ) == permutation@,
            is_permutation(permutation@) ==> apply_layers_rev(
                r@.map_values(|s: Slice<E>| slice_ops(s)),
                identity_perm(permutation@.len()),
            ) == permutation@,
    {
        let ghost p0 = permutation@;
        let mut permutation = permutation;
        let mut slices: Vec<Slice<E>> = Vec::new();

        let mut finished = false;

        while !finished
            invariant
                permutation@.len() == p0.len(),
                forall|j: int| 0 <= j < slices@.len() ==> {
                    &&& forall|m: int|
                        0 <= m < slice_ops(#[trigger] slices@[j]).len() ==> is_swap_or_id(
                            #[trigger] slice_ops(slices@[j])[m],
                        )
                    &&& (#[trigger] slices@[j]).spec_inputs() == p0.len()
                    &&& slices@[j].spec_outputs() == p0.len()
                    &&& forall|m: int| 0 <= m < slices@[j].ops@.len() ==> (#[trigger] slices@[j].ops@[m].1)@ == prefix@
                },
                swap_passes::<E>(p0) == slices@.map_values(|s: Slice<E>| slice_ops(s))
                    + swap_passes::<E>(permutation@),
                apply_layers(slices@.map_values(|s: Slice<E>| slice_ops(s)), p0) == permutation@,
                apply_layers_rev(slices@.map_values(|s: Slice<E>| slice_ops(s)), permutation@) == p0,
                forall|v: usize| count_lt(permutation@, v) == count_lt(p0, v),
                forall|v: usize| permutation@.contains(v) ==> p0.contains(v),
                (forall|i: int, j: int| 0 <= i < j < p0.len() ==> p0[i] != p0[j])
                    ==> (forall|i: int, j: int|
                    0 <= i < j < permutation@.len() ==> permutation@[i] != permutation@[j]),
                finished ==> sorted(permutation@),
                finished ==> swap_passes::<E>(permutation@) == Seq::<Seq<MonoidalOp<E>>>::empty(),
            decreases invs(permutation@), (if finished { 0int } else { 1int }),
        {
            let ghost perm_pre = permutation@;
            let ghost layers_pre = slices@.map_values(|s: Slice<E>| slice_ops(s));
            proof {
                assert(Seq::<Seq<MonoidalOp<E>>>::empty() + swap_passes::<E>(p0)
                    =~= swap_passes::<E>(p0));
            }
            let mut slice_items: Vec<(MonoidalOp<E>, Vec<NodeIndex>)> = Vec::new();
            finished = true;  // reset to false if this pass makes a swap
            let n = permutation.len();
            let mut i: usize = 0;

            proof {
                assert(perm_pre.skip(0) =~= perm_pre);
                assert(slice_items@.map_values(|pr: (MonoidalOp<E>, Vec<NodeIndex>)| pr.0)
                    =~= Seq::<MonoidalOp<E>>::empty());
                lemma_swap_pass::<E>(perm_pre);
            }

            while i < n && i + 1 < n
                invariant
                    n == permutation@.len(),
                    n == perm_pre.len(),
                    i <= n,
                    permutation@.skip(i as int) == perm_pre.skip(i as int),
                    swap_pass::<E>(perm_pre).0 == slice_items@.map_values(
                        |pr: (MonoidalOp<E>, Vec<NodeIndex>)| pr.0,
                    ) + swap_pass::<E>(perm_pre.skip(i as int)).0,
                    swap_pass::<E>(perm_pre).1 == permutation@.take(i as int) + swap_pass::<E>(
                        perm_pre.skip(i as int),
                    ).1,
                    swap_pass::<E>(perm_pre).2 == (!finished || swap_pass::<E>(
                        perm_pre.skip(i as int),
                    ).2),
                    forall|m: int| 0 <= m < slice_items@.len() ==> (#[trigger] slice_items@[m].1)@ == prefix@,
                decreases n - i,
            {
                let ghost sub = perm_pre.skip(i as int);
                proof {
                    assert(sub[0] == perm_pre[i as int]);
                    assert(sub[1] == perm_pre[i + 1]);
                    assert(permutation@[i as int] == sub[0]);
                    assert(permutation@[i + 1] == sub[1]);
                }
                if permutation[i] <= permutation[i + 1] {
                    i += 1;
                    slice_items.push((MonoidalOp::Copy { copies: 1 }, slice_to_vec(prefix)));
                    proof {
                        assert(sub.drop_first() =~= perm_pre.skip(i as int));
                        let ghost ops_new = slice_items@.map_values(
                            |pr: (MonoidalOp<E>, Vec<NodeIndex>)| pr.0,
                        );
                        assert(ops_new =~= slice_items@.drop_last().map_values(
                            |pr: (MonoidalOp<E>, Vec<NodeIndex>)| pr.0,
                        ).push(MonoidalOp::Copy { copies: 1 }));
                        assert(swap_pass::<E>(sub).0 =~= seq![MonoidalOp::<E>::Copy { copies: 1 }]
                            + swap_pass::<E>(sub.drop_first()).0);
                        assert(swap_pass::<E>(sub).1 =~= seq![sub[0]] + swap_pass::<E>(
                            sub.drop_first(),
                        ).1);
                        assert(swap_pass::<E>(perm_pre).0 =~= ops_new + swap_pass::<E>(
                            perm_pre.skip(i as int),
                        ).0);
                        assert(permutation@.take(i as int) =~= permutation@.take(i - 1).push(
                            permutation@[i - 1],
                        ));
                        assert(swap_pass::<E>(perm_pre).1 =~= permutation@.take(i as int)
                            + swap_pass::<E>(perm_pre.skip(i as int)).1);
                    }
                } else {
                    finished = false;
                    slice_items.push((MonoidalOp::Swap, slice_to_vec(prefix)));
                    let a = permutation[i];
                    let b = permutation[i + 1];
                    permutation[i] = b;
                    permutation[i + 1] = a;
                    proof {
                        assert(sub.skip(2) =~= perm_pre.skip(i + 2));
                        assert(permutation@.skip(i + 2) =~= perm_pre.skip(i + 2));
                        let ghost ops_new = slice_items@.map_values(
                            |pr: (MonoidalOp<E>, Vec<NodeIndex>)| pr.0,
                        );
                        assert(ops_new =~= slice_items@.drop_last().map_values(
                            |pr: (MonoidalOp<E>, Vec<NodeIndex>)| pr.0,
                        ).push(MonoidalOp::Swap));
                        assert(swap_pass::<E>(sub).0 =~= seq![MonoidalOp::<E>::Swap]
                            + swap_pass::<E>(sub.skip(2)).0);
                        assert(swap_pass::<E>(sub).1 =~= seq![sub[1], sub[0]] + swap_pass::<E>(
                            sub.skip(2),
                        ).1);
                        assert(swap_pass::<E>(perm_pre).0 =~= ops_new + swap_pass::<E>(
                            perm_pre.skip(i + 2),
                        ).0);
                        assert(permutation@.take(i + 2) =~= permutation@.take(i as int).push(
                            sub[1],
                        ).push(sub[0]));
                        assert(swap_pass::<E>(perm_pre).1 =~= permutation@.take(i + 2)
                            + swap_pass::<E>(perm_pre.skip(i + 2)).1);
                    }
                    i += 2;
                }
            }
            if i < n {
                // one trailing wire left over by the last step
                slice_items.push((MonoidalOp::Copy { copies: 1 }, slice_to_vec(prefix)));
                proof {
                    assert(i + 1 == n);
                    let ghost sub = perm_pre.skip(i as int);
                    assert(sub.len() == 1);
                    let ghost ops_new = slice_items@.map_values(
                        |pr: (MonoidalOp<E>, Vec<NodeIndex>)| pr.0,
                    );
                    assert(ops_new =~= slice_items@.drop_last().map_values(
                        |pr: (MonoidalOp<E>, Vec<NodeIndex>)| pr.0,
                    ).push(MonoidalOp::Copy { copies: 1 }));
                    assert(swap_pass::<E>(sub).0 =~= seq![MonoidalOp::<E>::Copy { copies: 1 }]);
                    assert(swap_pass::<E>(sub).1 == sub);
                    assert(swap_pass::<E>(sub).2 == false);
                    assert(swap_pass::<E>(perm_pre).0 =~= ops_new);
                    assert(permutation@ =~= permutation@.take(i as int) + sub);
                    assert(swap_pass::<E>(perm_pre).1 =~= permutation@);
                }
                i += 1;
            }
            proof {
                assert(i == n);
                assert(perm_pre.skip(i as int) =~= Seq::<usize>::empty());
                let ops_built = slice_items@.map_values(|pr: (MonoidalOp<E>, Vec<NodeIndex>)| pr.0);
                assert(swap_pass::<E>(perm_pre).0 =~= ops_built);
                assert(permutation@.take(i as int) =~= permutation@);
                assert(swap_pass::<E>(perm_pre).1 =~= permutation@);
                assert(swap_pass::<E>(perm_pre).2 == !finished);
            }

            let ghost pass_ops = slice_items@.map_values(|pr: (MonoidalOp<E>, Vec<NodeIndex>)| pr.0);

            if !finished {
                // Slice is non trivial
                slices.push(Slice { ops: slice_items });
                proof {
                    let layers_new = slices@.map_values(|s: Slice<E>| slice_ops(s));
                    assert(layers_new =~= layers_pre.push(pass_ops));
                    assert(slice_ops(slices@[slices@.len() - 1]) == pass_ops);
                    // the pass just made is the next element of swap_passes
                    assert(swap_passes::<E>(perm_pre) == seq![pass_ops] + swap_passes::<E>(
                        permutation@,
                    ));
                    assert(layers_pre + swap_passes::<E>(perm_pre) =~= layers_new + swap_passes::<
                        E,
                    >(permutation@));
                    // forward chain
                    assert(apply_layer(pass_ops, perm_pre) == permutation@);
                    lemma_apply_layers_push_forward(layers_pre, pass_ops, p0, perm_pre);
                    // backward chain through the involution
                    lemma_apply_layer_involutive(pass_ops, perm_pre);
                    assert(apply_layer(pass_ops, permutation@) == perm_pre);
                    lemma_apply_layers_rev_push(layers_pre, pass_ops, permutation@);
                }
            } else {
                proof {
                    assert(permutation@ == perm_pre);
                    assert(swap_passes::<E>(perm_pre) =~= Seq::<Seq<MonoidalOp<E>>>::empty());
                }
            }
        }

        proof {
            assert(slices@.map_values(|s: Slice<E>| slice_ops(s)) + Seq::<Seq<MonoidalOp<E>>>::empty()
                =~= slices@.map_values(|s: Slice<E>| slice_ops(s)));
            let layers = slices@.map_values(|s: Slice<E>| slice_ops(s));
            if is_permutation(p0) {
                assert(forall|i: int| 0 <= i < permutation@.len() ==> #[trigger] permutation@[i]
                    < permutation@.len()) by {
                    assert forall|i: int| 0 <= i < permutation@.len() implies #[trigger] permutation@[i]
                        < permutation@.len() by {
                        assert(permutation@.contains(permutation@[i]));
                        assert(p0.contains(permutation@[i]));
                        let m = choose|m: int| 0 <= m < p0.len() && p0[m] == permutation@[i];
                        assert(p0[m] < p0.len());
                    }
                }
                lemma_sorted_perm_is_identity(permutation@);
                assert(permutation@ == identity_perm(p0.len()));
            }
        }

        slices
    }
}

/// Appending a layer to a front-to-back chain applies it last.
proof fn lemma_apply_layers_push_forward<E>(
    layers: Seq<Seq<MonoidalOp<E>>>,
    l: Seq<MonoidalOp<E>>,
    xs: Seq<usize>,
    mid: Seq<usize>,
)
    requires
        apply_layers(layers, xs) == mid,
    ensures
        apply_layers(layers.push(l), xs) == apply_layer(l, mid),
    decreases layers.len(),
{
    if layers.len() == 0 {
        assert(layers.push(l).drop_first() =~= Seq::<Seq<MonoidalOp<E>>>::empty());
        assert(layers.push(l)[0] == l);
        assert(apply_layers(Seq::<Seq<MonoidalOp<E>>>::empty(), apply_layer(l, xs)) == apply_layer(l, xs));
    } else {
        assert(layers.push(l).drop_first() =~= layers.drop_first().push(l));
        assert(layers.push(l)[0] == layers[0]);
        lemma_apply_layers_push_forward(layers.drop_first(), l, apply_layer(layers[0], xs), mid);
    }
}

/// Copies a borrowed path into an owned vector.
fn slice_to_vec(path: &[NodeIndex]) -> (r: Vec<NodeIndex>)
    ensures
        r@ == path@,
{
    let mut r: Vec<NodeIndex> = Vec::new();
    let mut i: usize = 0;
    while i < path.len()
        invariant
            i <= path@.len(),
            r@ == path@.take(i as int),
        decreases path@.len() - i,
    {
        r.push(path[i]);
        proof {
            assert(path@.take(i + 1) =~= path@.take(i as int).push(path@[i as int]));
        }
        i += 1;
    }
    proof {
        assert(path@.take(path@.len() as int) =~= path@);
    }
    r
}

} // verus!
