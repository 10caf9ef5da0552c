//! Expressions that say when a function aborts.

use theorem_format::deep_nesting::flatten_deep_nesting;
use theorem_format::early_return::{
    fix_undefined_vars_in_aborts, fold_early_returns, fold_early_returns_inner,
    replace_inhabited_let_values, replace_inhabited_with_false, rewrite_asserts_in_aborts,
    simplify_aborts, strip_abort_branches, strip_unreachable_after_tail_calls,
};
use theorem_format::ir::{BinOp, Const, IRNode, UnOp};
use theorem_format::word::Word;

fn var(x: &str) -> IRNode {
    IRNode::Var(x.to_string())
}

fn lit(b: bool) -> IRNode {
    IRNode::Const(Const::Bool(b))
}

fn num(n: u64) -> IRNode {
    IRNode::Const(Const::UInt { bits: 64, value: Word::small(n) })
}

fn not(x: IRNode) -> IRNode {
    IRNode::UnOp { op: UnOp::Not, operand: Box::new(x) }
}

fn call(function: usize, args: Vec<IRNode>) -> IRNode {
    IRNode::Call { function, type_args: vec![], args }
}

fn unit() -> IRNode {
    IRNode::Tuple(vec![])
}

fn bind(names: &[&str], value: IRNode, body: IRNode) -> IRNode {
    IRNode::Let {
        pattern: names.iter().map(|n| n.to_string()).collect(),
        value: Box::new(value),
        body: Box::new(body),
    }
}

fn cond(c: IRNode, t: IRNode, e: IRNode) -> IRNode {
    IRNode::If { cond: Box::new(c), then_branch: Box::new(t), else_branch: Box::new(e) }
}

fn is(actual: IRNode, expected: IRNode) {
    assert!(actual.same(&expected), "{:?}", actual);
}

#[test]
fn an_early_return_takes_the_rest_into_its_else_branch() {
    is(
        fold_early_returns_inner(bind(&[], cond(var("c"), num(1), unit()), num(2))),
        cond(var("c"), num(1), num(2)),
    );
}

#[test]
fn a_branch_that_falls_through_is_followed_by_the_rest() {
    let n = bind(&[], cond(var("c"), bind(&["x"], num(1), unit()), unit()), num(2));
    is(
        fold_early_returns_inner(n),
        cond(var("c"), bind(&["x"], num(1), bind(&[], unit(), num(2))), num(2)),
    );
}

#[test]
fn an_abort_branch_is_stripped() {
    let abort = IRNode::Abort { code: None };
    is(strip_abort_branches(&cond(call(1, vec![]), abort, num(2))), num(2));
    is(fold_early_returns(cond(call(1, vec![]), unit(), num(2))), num(2));
    let guard = cond(var("c"), unit(), num(2));
    is(strip_abort_branches(&guard), guard.clone());
    let binds = cond(call(1, vec![]), bind(&["x"], num(1), unit()), num(2));
    is(strip_abort_branches(&binds), binds.clone());
    let inside = bind(
        &[],
        IRNode::ReadRef(Box::new(bind(&["x"], num(1), var("x")))),
        IRNode::Abort { code: None },
    );
    let reads = cond(call(1, vec![]), inside, num(2));
    is(strip_abort_branches(&reads), reads.clone());
}

#[test]
fn nothing_stays_behind_two_tail_calls() {
    let both = cond(var("c"), call(1, vec![]), call(2, vec![]));
    is(strip_unreachable_after_tail_calls(bind(&[], both.clone(), num(3))), both);
}

#[test]
fn a_failed_assertion_aborts() {
    let n = bind(&[], call(5, vec![var("p")]), lit(false));
    is(
        rewrite_asserts_in_aborts(n.clone(), &vec![5]),
        cond(not(var("p")), lit(true), lit(false)),
    );
    is(rewrite_asserts_in_aborts(n.clone(), &vec![6]), n);
}

#[test]
fn unit_branches_never_abort() {
    is(
        simplify_aborts(cond(var("c"), lit(true), bind(&["x"], num(1), unit()))),
        cond(var("c"), lit(true), bind(&["x"], num(1), lit(false))),
    );
}

#[test]
fn placeholders_become_false() {
    is(
        replace_inhabited_with_false(bind(&["x"], IRNode::Inhabited, call(1, vec![
            IRNode::Inhabited,
        ]))),
        bind(&["x"], lit(false), call(1, vec![lit(false)])),
    );
    is(
        replace_inhabited_with_false(IRNode::ToProp(Box::new(IRNode::Inhabited))),
        IRNode::ToProp(Box::new(lit(false))),
    );
    is(
        replace_inhabited_let_values(bind(
            &["x", "y"],
            call(1, vec![IRNode::Inhabited]),
            var("x"),
        )),
        bind(&["x", "y"], IRNode::Tuple(vec![lit(false), lit(false)]), var("x")),
    );
    is(
        replace_inhabited_let_values(bind(&["x"], call(1, vec![IRNode::Inhabited]), var("x"))),
        bind(&["x"], lit(false), var("x")),
    );
    is(
        replace_inhabited_let_values(call(2, vec![bind(&["x"], IRNode::Inhabited, var("x"))])),
        call(2, vec![bind(&["x"], lit(false), var("x"))]),
    );
}

#[test]
fn undefined_variables_become_false() {
    let n = bind(&["x"], var("a"), call(1, vec![var("x"), var("b"), var("c")]));
    is(
        fix_undefined_vars_in_aborts(n, &vec!["a".to_string(), "c".to_string()]),
        bind(&["x"], var("a"), call(1, vec![var("x"), lit(false), var("c")])),
    );
    let prop = |n: IRNode| IRNode::ToProp(Box::new(n));
    let m = bind(
        &["x"],
        var("y"),
        IRNode::Tuple(vec![var("x"), var("z"), prop(var("z"))]),
    );
    is(
        fix_undefined_vars_in_aborts(m, &vec!["y".to_string()]),
        bind(
            &["x"],
            var("y"),
            IRNode::Tuple(vec![var("x"), lit(false), prop(lit(false))]),
        ),
    );
    let option = IRNode::MatchOption {
        scrutinee: Box::new(var("o")),
        binding: "b".to_string(),
        some_branch: Box::new(var("b")),
        none_branch: Box::new(var("b")),
    };
    is(
        fix_undefined_vars_in_aborts(option, &vec!["o".to_string()]),
        IRNode::MatchOption {
            scrutinee: Box::new(var("o")),
            binding: "b".to_string(),
            some_branch: Box::new(var("b")),
            none_branch: Box::new(lit(false)),
        },
    );
}

fn nest(depth: usize) -> IRNode {
    let mut n = lit(false);
    let mut i = depth;
    while i > 0 {
        i -= 1;
        n = cond(var(&format!("c{}", i)), lit(true), n);
    }
    n
}

fn nesting(n: &IRNode) -> usize {
    match n {
        IRNode::If { then_branch, else_branch, .. } => {
            1 + std::cmp::max(nesting(then_branch), nesting(else_branch))
        }
        IRNode::BinOp { lhs, rhs, .. } => std::cmp::max(nesting(lhs), nesting(rhs)),
        _ => 0,
    }
}

fn disjuncts(n: &IRNode) -> usize {
    match n {
        IRNode::BinOp { op: BinOp::Or, lhs, rhs } => disjuncts(lhs) + disjuncts(rhs),
        IRNode::Var(_) => 1,
        _ => 0,
    }
}

#[test]
fn deep_chains_become_disjunctions() {
    let shallow = nest(5);
    is(flatten_deep_nesting(shallow.clone()), shallow);
    let deep = flatten_deep_nesting(nest(60));
    assert_eq!(nesting(&deep), 0);
    assert_eq!(disjuncts(&deep), 60);
}

#[test]
fn chains_are_flattened_from_sixteen_levels_on() {
    let deepest = nest(15);
    is(flatten_deep_nesting(deepest.clone()), deepest);
    let flat = flatten_deep_nesting(nest(16));
    assert_eq!(nesting(&flat), 0);
    assert_eq!(disjuncts(&flat), 16);
}
