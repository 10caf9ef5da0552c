//! Early returns in statements.

use theorem_format::early_return_elimination::eliminate_early_returns;
use theorem_format::ir::IRNode;
use theorem_format::statements::Stmt;

fn var(x: &str) -> Stmt {
    Stmt::Expr(IRNode::Var(x.to_string()))
}

fn ret(values: Vec<Stmt>) -> Stmt {
    Stmt::Return(values)
}

fn unit() -> Stmt {
    Stmt::Tuple(vec![])
}

fn block(children: Vec<Stmt>) -> Stmt {
    Stmt::Block { children }
}

fn cond(c: Stmt, t: Stmt, e: Stmt) -> Stmt {
    Stmt::If { cond: Box::new(c), then_branch: Box::new(t), else_branch: Box::new(e) }
}

fn bind(names: &[&str], value: Stmt) -> Stmt {
    Stmt::Let {
        pattern: names.iter().map(|n| n.to_string()).collect(),
        value: Box::new(value),
    }
}

fn repeat(c: Stmt, body: Stmt) -> Stmt {
    Stmt::While { cond: Box::new(c), body: Box::new(body), vars: vec![], invariants: vec![] }
}

fn becomes(n: Stmt, expected: Stmt) {
    assert_eq!(format!("{:?}", eliminate_early_returns(n)), format!("{:?}", expected));
}

#[test]
fn guards_become_a_chain_of_conditionals() {
    becomes(
        block(vec![
            cond(var("c1"), ret(vec![var("eq")]), unit()),
            cond(var("c2"), ret(vec![var("lt")]), unit()),
            var("last"),
        ]),
        cond(var("c1"), var("eq"), cond(var("c2"), var("lt"), var("last"))),
    );
}

#[test]
fn a_guard_may_return_in_its_else_branch() {
    becomes(
        block(vec![
            var("first"),
            cond(var("c"), block(vec![var("more")]), ret(vec![var("x"), var("y")])),
            var("last"),
        ]),
        block(vec![
            var("first"),
            cond(
                var("c"),
                block(vec![var("more"), var("last")]),
                Stmt::Tuple(vec![var("x"), var("y")]),
            ),
        ]),
    );
}

#[test]
fn a_bound_guard_binds_in_the_branch_that_goes_on() {
    becomes(
        block(vec![
            bind(&["a"], cond(var("c"), ret(vec![var("x")]), var("v"))),
            var("a"),
        ]),
        cond(var("c"), var("x"), block(vec![bind(&["a"], var("v")), var("a")])),
    );
}

#[test]
fn what_is_not_reached_is_dropped() {
    becomes(
        block(vec![var("a"), ret(vec![var("b")]), var("c")]),
        block(vec![var("a"), var("b")]),
    );
    becomes(
        block(vec![Stmt::Abort(None), var("c")]),
        block(vec![Stmt::Abort(None)]),
    );
}

#[test]
fn a_conditional_that_always_returns_ends_the_block() {
    becomes(
        block(vec![cond(var("c"), ret(vec![var("x")]), ret(vec![var("y")])), var("z")]),
        block(vec![cond(var("c"), var("x"), var("y"))]),
    );
}

#[test]
fn returns_in_loops_are_kept() {
    becomes(
        block(vec![
            repeat(
                var("go"),
                block(vec![cond(var("c"), ret(vec![var("x")]), unit()), var("step")]),
            ),
            var("end"),
        ]),
        block(vec![
            repeat(var("go"), cond(var("c"), ret(vec![var("x")]), var("step"))),
            var("end"),
        ]),
    );
}

#[test]
fn returns_in_bindings_of_loops_are_hoisted() {
    let value = cond(
        var("c1"),
        Stmt::Tuple(vec![var("a"), var("b")]),
        cond(var("c2"), ret(vec![var("x")]), Stmt::Tuple(vec![var("b"), var("a")])),
    );
    becomes(
        repeat(var("go"), block(vec![bind(&["a", "b"], value), var("rest")])),
        repeat(
            var("go"),
            cond(
                var("c1"),
                block(vec![
                    bind(&["a", "b"], Stmt::Tuple(vec![var("a"), var("b")])),
                    var("rest"),
                ]),
                cond(
                    var("c2"),
                    ret(vec![var("x")]),
                    block(vec![
                        bind(&["a", "b"], Stmt::Tuple(vec![var("b"), var("a")])),
                        var("rest"),
                    ]),
                ),
            ),
        ),
    );
}

#[test]
fn what_stands_before_a_hoisted_conditional_stays_before_it() {
    let value = block(vec![
        bind(&["t"], var("u")),
        cond(var("c1"), var("v"), cond(var("c2"), ret(vec![]), var("w"))),
    ]);
    becomes(
        repeat(var("go"), block(vec![var("first"), bind(&["a"], value), var("rest")])),
        repeat(
            var("go"),
            block(vec![
                var("first"),
                bind(&["t"], var("u")),
                cond(
                    var("c1"),
                    block(vec![bind(&["a"], var("v")), var("rest")]),
                    cond(
                        var("c2"),
                        ret(vec![]),
                        block(vec![bind(&["a"], var("w")), var("rest")]),
                    ),
                ),
            ]),
        ),
    );
}

#[test]
fn matches_are_entered() {
    let n = Stmt::Match {
        scrutinee: Box::new(var("s")),
        enum_id: 4,
        cases: vec![(
            1,
            vec!["x".to_string()],
            block(vec![cond(var("c"), ret(vec![var("x")]), unit()), var("y")]),
        )],
    };
    let expected = Stmt::Match {
        scrutinee: Box::new(var("s")),
        enum_id: 4,
        cases: vec![(1, vec!["x".to_string()], cond(var("c"), var("x"), var("y")))],
    };
    becomes(n, expected);
}

#[test]
fn termination_of_statements() {
    assert!(ret(vec![]).terminates());
    assert!(block(vec![var("a"), ret(vec![])]).terminates());
    assert!(!block(vec![ret(vec![]), var("a")]).terminates());
    assert!(cond(var("c"), ret(vec![]), Stmt::Abort(None)).terminates());
    assert!(!cond(var("c"), ret(vec![]), unit()).terminates());
    assert!(!block(vec![]).terminates());
    assert!(repeat(var("c"), ret(vec![])).contains_return());
    assert!(!repeat(var("c"), unit()).contains_return());
}
