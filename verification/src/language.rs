//! The expression language the visualiser compiles: binding expressions
//! whose values are variables or operator applications carrying nested
//! thunks, plus the free-variable analysis that decides thunk boundary
//! wires.

use vstd::prelude::*;
use crate::language::spartan::{Op, Type, Variable};

pub mod chil;
pub mod spartan;

verus! {

broadcast use vstd::seq_lib::lemma_seq_contains_after_push;

/// A binding expression: a list of bindings followed by a returned value.
#[derive(Debug, PartialEq, Eq)]
pub struct Expr {
    pub binds: Vec<Bind>,
    pub value: Value,
}

/// One binding: a variable, its annotated type, and the bound value.
#[derive(Debug, PartialEq, Eq)]
pub struct Bind {
    pub var: Variable,
    pub ty: Type,
    pub value: Value,
}

/// A value: a variable reference, or an operator applied to values and
/// thunks.
#[derive(Debug, PartialEq, Eq)]
pub enum Value {
    Variable(Variable),
    Op { op: Op, vs: Vec<Value>, ds: Vec<Thunk> },
}

/// A thunk: declared argument variables and a body expression; the body's
/// other free variables are captured from the enclosing scope.
#[derive(Debug, PartialEq, Eq)]
pub struct Thunk {
    pub addr: crate::language::spartan::Addr,
    pub args: Vec<(Variable, Type)>,
    pub body: Expr,
}

/// The set of variable names a sequence of variables denotes.
pub open spec fn var_set(s: Seq<Variable>) -> Set<Seq<char>> {
    Set::new(|x: Seq<char>| exists|i: int| 0 <= i < s.len() && (#[trigger] s[i]).0@ == x)
}

/// Free variables of a value.
pub open spec fn value_fv(v: Value) -> Set<Seq<char>>
    decreases v,
{
    match v {
        Value::Variable(x) => Set::empty().insert(x.0@),
        Value::Op { op, vs, ds } => values_fv(vs@).union(thunks_fv(ds@)),
    }
}

/// Free variables of a sequence of values.
pub open spec fn values_fv(s: Seq<Value>) -> Set<Seq<char>>
    decreases s,
{
    if s.len() == 0 {
        Set::empty()
    } else {
        values_fv(s.drop_last()).union(value_fv(s.last()))
    }
}

/// Free variables of a sequence of thunks.
pub open spec fn thunks_fv(s: Seq<Thunk>) -> Set<Seq<char>>
    decreases s,
{
    if s.len() == 0 {
        Set::empty()
    } else {
        thunks_fv(s.drop_last()).union(thunk_fv(s.last()))
    }
}

/// Free variables of a thunk: its body's free variables minus its declared
/// arguments.
pub open spec fn thunk_fv(t: Thunk) -> Set<Seq<char>>
    decreases t,
{
    expr_fv(t.body).difference(var_set(t.args@.map_values(|p: (Variable, Type)| p.0)))
}

/// Free variables of an expression: the union over all bound values and
/// the returned value, minus the variables the bindings define.
pub open spec fn expr_fv(e: Expr) -> Set<Seq<char>>
    decreases e,
{
    binds_fv(e.binds@).union(value_fv(e.value)).difference(
        var_set(e.binds@.map_values(|b: Bind| b.var)),
    )
}

/// Free variables of the values of a sequence of bindings.
pub open spec fn binds_fv(s: Seq<Bind>) -> Set<Seq<char>>
    decreases s,
{
    if s.len() == 0 {
        Set::empty()
    } else {
        binds_fv(s.drop_last()).union(value_fv(s.last().value))
    }
}

/// The collected variables hold no duplicate names.
pub open spec fn no_dup_vars(s: Seq<Variable>) -> bool {
    forall|i: int, j: int| 0 <= i < j < s.len() ==> (#[trigger] s[i]).0@ != (#[trigger] s[j]).0@
}

/// Inserts a variable unless one with the same name is already collected.
fn insert_var(vars: &mut Vec<Variable>, v: &Variable)
    requires
        no_dup_vars(old(vars)@),
    ensures
        no_dup_vars(final(vars)@),
        var_set(final(vars)@) == var_set(old(vars)@).insert(v.0@),
{
    let mut i: usize = 0;
    while i < vars.len()
        invariant
            i <= vars@.len(),
            no_dup_vars(vars@),
            forall|q: int| 0 <= q < i ==> (#[trigger] vars@[q]).0@ != v.0@,
        decreases vars@.len() - i,
    {
        if vars[i].0 == v.0 {
            proof {
                assert(vars@[i as int].0@ == v.0@);
                assert(var_set(vars@).insert(v.0@) =~= var_set(vars@));
            }
            return ;
        }
        i += 1;
    }
    let ghost pre = vars@;
    vars.push(Variable(clone_string(&v.0)));
    proof {
        assert forall|q: int, j: int| 0 <= q < j < vars@.len() implies (#[trigger] vars@[q]).0@
            != (#[trigger] vars@[j]).0@ by {
            if j < vars@.len() - 1 {
                assert(vars@[q] == pre[q] && vars@[j] == pre[j]);
            } else {
                assert(vars@[q] == pre[q]);
                assert(vars@[j].0@ == v.0@);
            }
        }
        assert(var_set(vars@) =~= var_set(pre).insert(v.0@)) by {
            assert forall|x: Seq<char>| var_set(vars@).contains(x) implies var_set(pre).insert(
                v.0@,
            ).contains(x) by {
                let i2 = choose|i2: int| 0 <= i2 < vars@.len() && (#[trigger] vars@[i2]).0@ == x;
                if i2 < pre.len() {
                    assert(pre[i2].0@ == x);
                }
            }
            assert forall|x: Seq<char>| var_set(pre).insert(v.0@).contains(x)
                implies var_set(vars@).contains(x) by {
                if x == v.0@ {
                    assert(vars@[vars@.len() - 1].0@ == x);
                } else {
                    let i2 = choose|i2: int| 0 <= i2 < pre.len() && (#[trigger] pre[i2]).0@ == x;
                    assert(vars@[i2].0@ == x);
                }
            }
        }
    }
}

/// Copies a string.
fn clone_string(s: &String) -> (r: String)
    ensures
        r@ == s@,
{
    let r = s.clone();
    r
}

impl Value {
    /// Collects this value's free variables into `vars`.
    pub fn free_vars(&self, vars: &mut Vec<Variable>)
        requires
            no_dup_vars(old(vars)@),
        ensures
            no_dup_vars(final(vars)@),
            var_set(final(vars)@) == var_set(old(vars)@).union(value_fv(*self)),
        decreases *self,
    {
        match self {
            Value::Variable(v) => {
                insert_var(vars, v);
                proof {
                    assert(var_set(vars@) =~= var_set(old(vars)@).union(value_fv(*self)));
                }
            }
            Value::Op { op, vs, ds } => {
                let mut i: usize = 0;
                while i < vs.len()
                    invariant
                        no_dup_vars(vars@),
                        i <= vs@.len(),
                        var_set(vars@) == var_set(old(vars)@).union(values_fv(vs@.take(i as int))),
                        vs@ == (match *self {
                            Value::Op { op, vs, ds } => vs@,
                            _ => vs@,
                        }),
                        *self matches Value::Op { op, vs: vs2, ds } && vs2@ == vs@,
                    decreases vs@.len() - i, *self,
                {
                    let ghost pre = vars@;
                    vs[i].free_vars(vars);
                    proof {
                        assert(vs@.take(i + 1).drop_last() =~= vs@.take(i as int));
                        assert(vs@.take(i + 1).last() == vs@[i as int]);
                        assert(var_set(vars@) =~= var_set(old(vars)@).union(
                            values_fv(vs@.take(i + 1)),
                        ));
                    }
                    i += 1;
                }
                proof {
                    assert(vs@.take(vs@.len() as int) =~= vs@);
                }
                let mut j: usize = 0;
                while j < ds.len()
                    invariant
                        no_dup_vars(vars@),
                        j <= ds@.len(),
                        var_set(vars@) == var_set(old(vars)@).union(values_fv(vs@)).union(
                            thunks_fv(ds@.take(j as int)),
                        ),
                        *self matches Value::Op { op, vs: vs2, ds: ds2 } && vs2@ == vs@ && ds2@ == ds@,
                    decreases ds@.len() - j, *self,
                {
                    ds[j].free_vars(vars);
                    proof {
                        assert(ds@.take(j + 1).drop_last() =~= ds@.take(j as int));
                        assert(ds@.take(j + 1).last() == ds@[j as int]);
                        assert(var_set(vars@) =~= var_set(old(vars)@).union(values_fv(vs@)).union(
                            thunks_fv(ds@.take(j + 1)),
                        ));
                    }
                    j += 1;
                }
                proof {
                    assert(ds@.take(ds@.len() as int) =~= ds@);
                    assert(var_set(vars@) =~= var_set(old(vars)@).union(value_fv(*self)));
                }
            }
        }
    }
}

impl Thunk {
    /// Collects this thunk's free variables — its body's free variables
    /// minus its declared arguments — into `vars`.
    pub fn free_vars(&self, vars: &mut Vec<Variable>)
        requires
            no_dup_vars(old(vars)@),
        ensures
            no_dup_vars(final(vars)@),
            var_set(final(vars)@) == var_set(old(vars)@).union(thunk_fv(*self)),
        decreases *self,
    {
        let body_vars = self.body.free_vars();
        let mut m: usize = 0;
        while m < body_vars.len()
            invariant
                no_dup_vars(vars@),
                no_dup_vars(body_vars@),
                m <= body_vars@.len(),
                var_set(body_vars@) == expr_fv(self.body),
                var_set(vars@) == var_set(old(vars)@).union(
                    var_set(body_vars@.take(m as int)).difference(
                        var_set(self.args@.map_values(|p: (Variable, Type)| p.0)),
                    ),
                ),
            decreases body_vars@.len() - m,
        {
            let ghost pre = vars@;
            let v = &body_vars[m];
            let mut bound = false;
            let mut a: usize = 0;
            while a < self.args.len()
                invariant
                    a <= self.args@.len(),
                    bound == exists|q: int|
                        0 <= q < a && (#[trigger] self.args@[q]).0.0@ == body_vars@[m as int].0@,
                    v.0@ == body_vars@[m as int].0@,
                decreases self.args@.len() - a,
            {
                if self.args[a].0.0 == v.0 {
                    bound = true;
                }
                a += 1;
            }
            if !bound {
                insert_var(vars, v);
            }
            proof {
                assert(body_vars@.take(m + 1).drop_last() =~= body_vars@.take(m as int));
                assert(body_vars@.take(m + 1).last() == body_vars@[m as int]);
                let args_set = var_set(self.args@.map_values(|p: (Variable, Type)| p.0));
                if bound {
                    let q = choose|q: int|
                        0 <= q < self.args@.len() && (#[trigger] self.args@[q]).0.0@
                            == body_vars@[m as int].0@;
                    assert(self.args@.map_values(|p: (Variable, Type)| p.0)[q].0@
                        == body_vars@[m as int].0@);
                    assert(args_set.contains(body_vars@[m as int].0@));
                } else {
                    assert(!args_set.contains(body_vars@[m as int].0@)) by {
                        if args_set.contains(body_vars@[m as int].0@) {
                            let avars = self.args@.map_values(|p: (Variable, Type)| p.0);
                            let q = choose|q: int|
                                0 <= q < avars.len() && (#[trigger] avars[q]).0@
                                    == body_vars@[m as int].0@;
                            assert(self.args@[q].0.0@ == body_vars@[m as int].0@);
                        }
                    }
                }
                assert(var_set(body_vars@.take(m + 1)) =~= var_set(body_vars@.take(m as int)).insert(
                    body_vars@[m as int].0@,
                )) by {
                    assert forall|x: Seq<char>| var_set(body_vars@.take(m + 1)).contains(x)
                        implies var_set(body_vars@.take(m as int)).insert(
                        body_vars@[m as int].0@,
                    ).contains(x) by {
                        let i2 = choose|i2: int|
                            0 <= i2 < body_vars@.take(m + 1).len() && (#[trigger] body_vars@.take(
                                m + 1,
                            )[i2]).0@ == x;
                        if i2 < m {
                            assert(body_vars@.take(m as int)[i2].0@ == x);
                        }
                    }
                    assert forall|x: Seq<char>| var_set(body_vars@.take(m as int)).insert(
                        body_vars@[m as int].0@,
                    ).contains(x) implies var_set(body_vars@.take(m + 1)).contains(x) by {
                        if x == body_vars@[m as int].0@ {
                            assert(body_vars@.take(m + 1)[m as int].0@ == x);
                        } else {
                            let i2 = choose|i2: int|
                                0 <= i2 < m && (#[trigger] body_vars@.take(m as int)[i2]).0@ == x;
                            assert(body_vars@.take(m + 1)[i2].0@ == x);
                        }
                    }
                }
                assert(var_set(vars@) =~= var_set(old(vars)@).union(
                    var_set(body_vars@.take(m + 1)).difference(args_set),
                ));
            }
            m += 1;
        }
        proof {
            assert(body_vars@.take(body_vars@.len() as int) =~= body_vars@);
            assert(var_set(vars@) =~= var_set(old(vars)@).union(thunk_fv(*self)));
        }
    }
}

impl Expr {
    /// The free variables of the expression, in first-occurrence order,
    /// duplicate free.
    pub fn free_vars(&self) -> (r: Vec<Variable>)
        ensures
            no_dup_vars(r@),
            var_set(r@) == expr_fv(*self),
        decreases *self,
    {
        let mut vars: Vec<Variable> = Vec::new();
        proof {
            assert(var_set(vars@) =~= Set::<Seq<char>>::empty());
        }
        let mut i: usize = 0;
        while i < self.binds.len()
            invariant
                no_dup_vars(vars@),
                i <= self.binds@.len(),
                var_set(vars@) == binds_fv(self.binds@.take(i as int)),
            decreases self.binds@.len() - i,
        {
            self.binds[i].value.free_vars(&mut vars);
            proof {
                assert(self.binds@.take(i + 1).drop_last() =~= self.binds@.take(i as int));
                assert(self.binds@.take(i + 1).last() == self.binds@[i as int]);
                assert(var_set(vars@) =~= binds_fv(self.binds@.take(i + 1)));
            }
            i += 1;
        }
        proof {
            assert(self.binds@.take(self.binds@.len() as int) =~= self.binds@);
        }
        self.value.free_vars(&mut vars);

        // remove the variables this expression's bindings define
        let mut out: Vec<Variable> = Vec::new();
        let ghost defs = var_set(self.binds@.map_values(|b: Bind| b.var));
        let mut m: usize = 0;
        proof {
            assert(var_set(out@) =~= Set::<Seq<char>>::empty());
        }
        while m < vars.len()
            invariant
                no_dup_vars(vars@),
                m <= vars@.len(),
                no_dup_vars(out@),
                var_set(out@) == var_set(vars@.take(m as int)).difference(
                    var_set(self.binds@.map_values(|b: Bind| b.var)),
                ),
            decreases vars@.len() - m,
        {
            let v = &vars[m];
            let mut bound = false;
            let mut a: usize = 0;
            while a < self.binds.len()
                invariant
                    a <= self.binds@.len(),
                    bound == exists|q: int|
                        0 <= q < a && (#[trigger] self.binds@[q]).var.0@ == vars@[m as int].0@,
                    v.0@ == vars@[m as int].0@,
                decreases self.binds@.len() - a,
            {
                if self.binds[a].var.0 == v.0 {
                    bound = true;
                }
                a += 1;
            }
            if !bound {
                insert_var(&mut out, v);
            }
            proof {
                assert(vars@.take(m + 1).drop_last() =~= vars@.take(m as int));
                assert(vars@.take(m + 1).last() == vars@[m as int]);
                let bset = var_set(self.binds@.map_values(|b: Bind| b.var));
                if bound {
                    let q = choose|q: int|
                        0 <= q < self.binds@.len() && (#[trigger] self.binds@[q]).var.0@
                            == vars@[m as int].0@;
                    assert(self.binds@.map_values(|b: Bind| b.var)[q].0@ == vars@[m as int].0@);
                    assert(bset.contains(vars@[m as int].0@));
                } else {
                    assert(!bset.contains(vars@[m as int].0@)) by {
                        if bset.contains(vars@[m as int].0@) {
                            let bvars = self.binds@.map_values(|b: Bind| b.var);
                            let q = choose|q: int|
                                0 <= q < bvars.len() && (#[trigger] bvars[q]).0@
                                    == vars@[m as int].0@;
                            assert(self.binds@[q].var.0@ == vars@[m as int].0@);
                        }
                    }
                }
                assert(var_set(vars@.take(m + 1)) =~= var_set(vars@.take(m as int)).insert(
                    vars@[m as int].0@,
                )) by {
                    assert forall|x: Seq<char>| var_set(vars@.take(m + 1)).contains(x)
                        implies var_set(vars@.take(m as int)).insert(
                        vars@[m as int].0@,
                    ).contains(x) by {
                        let i2 = choose|i2: int|
                            0 <= i2 < vars@.take(m + 1).len() && (#[trigger] vars@.take(m + 1)[i2]).0@
                                == x;
                        if i2 < m {
                            assert(vars@.take(m as int)[i2].0@ == x);
                        }
                    }
                    assert forall|x: Seq<char>| var_set(vars@.take(m as int)).insert(
                        vars@[m as int].0@,
                    ).contains(x) implies var_set(vars@.take(m + 1)).contains(x) by {
                        if x == vars@[m as int].0@ {
                            assert(vars@.take(m + 1)[m as int].0@ == x);
                        } else {
                            let i2 = choose|i2: int|
                                0 <= i2 < m && (#[trigger] vars@.take(m as int)[i2]).0@ == x;
                            assert(vars@.take(m + 1)[i2].0@ == x);
                        }
                    }
                }
                assert(var_set(out@) =~= var_set(vars@.take(m + 1)).difference(bset));
            }
            m += 1;
        }
        proof {
            assert(vars@.take(vars@.len() as int) =~= vars@);
            assert(var_set(out@) =~= expr_fv(*self));
        }
        out
    }
}

} // verus!
