//! Tests for the free-variable analysis and the built-in example diagrams.

use sd_core::examples;
use sd_core::language::spartan::{Addr, Op, Type, Variable};
use sd_core::language::{Bind, Expr, Thunk, Value};
use sd_core::language::chil;

fn var(name: &str) -> Variable {
    Variable(name.to_owned())
}

fn names(vars: &[Variable]) -> Vec<String> {
    vars.iter().map(|v| v.0.clone()).collect()
}

#[test]
fn thunk_free_vars_subtract_arguments() {
    // a thunk with body referencing x, y and z, declaring only x
    let body = Expr {
        binds: vec![],
        value: Value::Op {
            op: Op::Plus,
            vs: vec![
                Value::Variable(var("x")),
                Value::Variable(var("y")),
                Value::Variable(var("z")),
            ],
            ds: vec![],
        },
    };
    let thunk = Thunk { addr: Addr, args: vec![(var("x"), Type)], body };
    let mut collected: Vec<Variable> = Vec::new();
    thunk.free_vars(&mut collected);
    assert_eq!(names(&collected), vec!["y".to_owned(), "z".to_owned()]);
}

#[test]
fn expr_free_vars_subtract_bindings() {
    // bind w = plus(u, u) in times(w, v): free variables are u and v
    let e = Expr {
        binds: vec![Bind {
            var: var("w"),
            ty: Type,
            value: Value::Op {
                op: Op::Plus,
                vs: vec![Value::Variable(var("u")), Value::Variable(var("u"))],
                ds: vec![],
            },
        }],
        value: Value::Op {
            op: Op::Times,
            vs: vec![Value::Variable(var("w")), Value::Variable(var("v"))],
            ds: vec![],
        },
    };
    let fv = e.free_vars();
    assert_eq!(names(&fv), vec!["u".to_owned(), "v".to_owned()]);
}

#[test]
fn free_vars_are_duplicate_free_and_ordered() {
    let e = Expr {
        binds: vec![],
        value: Value::Op {
            op: Op::Plus,
            vs: vec![
                Value::Variable(var("b")),
                Value::Variable(var("a")),
                Value::Variable(var("b")),
            ],
            ds: vec![],
        },
    };
    let fv = e.free_vars();
    // first-occurrence order, each name once
    assert_eq!(names(&fv), vec!["b".to_owned(), "a".to_owned()]);
}

#[test]
fn example_diagrams_compose() {
    let g = examples::integer();
    assert_eq!(g.inputs, 0);
    assert_eq!(g.slices.len(), 1);
    assert_eq!(g.slices[0].number_of_inputs(), 0);
    assert_eq!(g.slices[0].number_of_outputs(), 1);

    let g = examples::copy();
    assert_eq!(g.inputs, 1);
    assert_eq!(g.slices[0].number_of_inputs(), 1);
    assert_eq!(g.slices[0].number_of_outputs(), g.slices[1].number_of_inputs());
    assert_eq!(g.slices[1].number_of_outputs(), 3);

    let g = examples::thunk();
    assert_eq!(g.inputs, 3);
    assert_eq!(g.slices[0].number_of_inputs(), 3);
    assert_eq!(g.slices[0].number_of_outputs(), 2);
}

#[test]
fn chil_variable_addr() {
    let v = chil::Variable::Identifier(chil::Identifier("x".to_owned()), chil::Addr('v', 12));
    assert_eq!(v.addr(), chil::Addr('v', 12));
    let w = chil::Variable::Addr(chil::Addr('a', 3));
    assert_eq!(w.addr(), chil::Addr('a', 3));
}
