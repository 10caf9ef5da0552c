//! Bindings, branches and the variables that they hand on.

use theorem_format::cleanup::{
    cleanup, flatten_sequential_ifs, normalize_unit_branches, remove_identity_lets,
};
use theorem_format::coalesce::coalesce_shadow_self_noop_updates;
use theorem_format::ir::{BinOp, Const, IRNode, UnOp, WriteBackEdge};
use theorem_format::optimize::{
    optimize, optimize_settling, optimize_with, same_outline, KeepTemps,
};
use theorem_format::phi_lifting::lift_post_threading_phis;
use theorem_format::program::Program;
use theorem_format::prop_lifting::{fix_mixed_if_branches, lift_bool_tails_to_prop};
use theorem_format::scope::VariableRegistry;
use theorem_format::types::Type;
use theorem_format::word::Word;
use theorem_format::writebacks::{
    fix_writeref_empty_patterns, propagate_field_snapshot_writebacks,
    wrap_mutable_if_branch_terminals,
};

fn var(x: &str) -> IRNode {
    IRNode::Var(x.to_string())
}

fn lit(b: bool) -> IRNode {
    IRNode::Const(Const::Bool(b))
}

fn num(n: u64) -> IRNode {
    IRNode::Const(Const::UInt { bits: 64, value: Word::small(n) })
}

fn bin(op: BinOp, l: IRNode, r: IRNode) -> IRNode {
    IRNode::BinOp { op, lhs: Box::new(l), rhs: Box::new(r) }
}

fn not(x: IRNode) -> IRNode {
    IRNode::UnOp { op: UnOp::Not, operand: Box::new(x) }
}

fn call(function: usize, args: Vec<IRNode>) -> IRNode {
    IRNode::Call { function, type_args: vec![], args }
}

fn tuple(elems: Vec<IRNode>) -> IRNode {
    IRNode::Tuple(elems)
}

fn unit() -> IRNode {
    IRNode::Tuple(vec![])
}

fn bind(names: &[&str], value: IRNode, body: IRNode) -> IRNode {
    IRNode::Let {
        pattern: names.iter().map(|n| n.to_string()).collect(),
        value: Box::new(value),
        body: Box::new(body),
    }
}

fn cond(c: IRNode, t: IRNode, e: IRNode) -> IRNode {
    IRNode::If { cond: Box::new(c), then_branch: Box::new(t), else_branch: Box::new(e) }
}

fn field(x: &str, i: usize) -> IRNode {
    IRNode::Field { struct_id: 1, field_index: i, base: Box::new(var(x)) }
}

fn update(x: &str, i: usize, value: IRNode) -> IRNode {
    IRNode::UpdateField {
        base: Box::new(var(x)),
        struct_id: 1,
        field_index: i,
        value: Box::new(value),
    }
}

fn write(x: &str, value: IRNode) -> IRNode {
    IRNode::WriteRef { reference: Box::new(var(x)), value: Box::new(value) }
}

fn is(actual: IRNode, expected: IRNode) {
    assert!(actual.same(&expected), "{:?}", actual);
}

#[test]
fn bindings_of_variables_to_themselves_go() {
    is(
        remove_identity_lets(bind(&["x"], var("x"), bind(&["y"], var("x"), var("y")))),
        bind(&["y"], var("x"), var("y")),
    );
    is(
        remove_identity_lets(bind(&["x"], bind(&["y"], var("y"), var("x")), var("z"))),
        var("z"),
    );
}

#[test]
fn unit_sides_of_branches_become_false() {
    is(
        normalize_unit_branches(cond(var("c"), lit(true), bind(&["x"], num(1), unit()))),
        cond(var("c"), lit(true), lit(false)),
    );
    is(
        normalize_unit_branches(cond(var("c"), unit(), cond(var("d"), not(var("e")), unit()))),
        cond(var("c"), lit(false), cond(var("d"), not(var("e")), lit(false))),
    );
}

#[test]
fn unit_sides_beside_other_values_stay() {
    let n = cond(var("c"), unit(), num(1));
    is(normalize_unit_branches(n.clone()), n);
    let both = cond(var("c"), unit(), unit());
    is(normalize_unit_branches(both.clone()), both);
}

#[test]
fn a_variable_bound_and_returned_is_its_value() {
    let program = Program::empty();
    let mut reg = VariableRegistry::new(&program);
    is(cleanup(bind(&["x"], num(3), var("x")), &mut reg, None), num(3));
}

#[test]
fn boolean_branches_become_connectives() {
    let program = Program::empty();
    let mut reg = VariableRegistry::new(&program);
    reg.register("a".to_string(), Type::Bool);
    reg.register("b".to_string(), Type::Bool);
    is(
        cleanup(cond(var("a"), var("b"), lit(false)), &mut reg, None),
        bin(BinOp::And, var("a"), var("b")),
    );
    is(
        cleanup(cond(var("a"), lit(true), var("b")), &mut reg, None),
        bin(BinOp::Or, var("a"), var("b")),
    );
    is(cleanup(cond(var("a"), lit(false), lit(true)), &mut reg, None), not(var("a")));
}

#[test]
fn guards_of_the_function_itself_stay() {
    let program = Program::empty();
    let mut reg = VariableRegistry::new(&program);
    reg.register("a".to_string(), Type::Bool);
    let n = cond(var("a"), lit(true), call(9, vec![]));
    is(cleanup(n.clone(), &mut reg, Some(9)), n);
}

#[test]
fn branches_with_effects_return_the_value_of_the_last() {
    let program = Program::empty();
    let mut reg = VariableRegistry::new(&program);
    reg.register("v".to_string(), Type::UInt(64));
    let effect = |f: usize| bind(&[], call(f, vec![]), unit());
    let n = cond(var("a"), effect(1), cond(var("b"), effect(2), var("v")));
    is(
        flatten_sequential_ifs(n, &mut reg),
        cond(
            var("a"),
            bind(&[], call(1, vec![]), var("v")),
            cond(var("b"), bind(&[], call(2, vec![]), var("v")), var("v")),
        ),
    );
    let plain = |x: &str| bind(&[], var(x), unit());
    let m = cond(var("a"), plain("e1"), cond(var("b"), plain("e2"), var("v")));
    is(
        flatten_sequential_ifs(m, &mut reg),
        cond(
            var("a"),
            bind(&[], var("e1"), var("v")),
            cond(var("b"), bind(&[], var("e2"), var("v")), var("v")),
        ),
    );
}

#[test]
fn an_update_of_an_alias_is_carried_over() {
    let n = bind(
        &["x"],
        var("y"),
        bind(
            &["snap"],
            field("y", 0),
            bind(
                &["x"],
                update("x", 0, call(1, vec![field("x", 1)])),
                bind(&["y"], update("y", 0, var("snap")), var("y")),
            ),
        ),
    );
    let r = coalesce_shadow_self_noop_updates(n);
    is(
        r,
        bind(
            &["x"],
            var("y"),
            bind(
                &["snap"],
                field("y", 0),
                bind(
                    &["x"],
                    update("x", 0, call(1, vec![field("x", 1)])),
                    bind(&["y"], update("y", 0, call(1, vec![field("y", 1)])), var("y")),
                ),
            ),
        ),
    );
}

#[test]
fn a_snapshot_taken_elsewhere_is_left_alone() {
    let n = bind(
        &["snap"],
        field("z", 0),
        bind(
            &["y"],
            update("y", 0, num(1)),
            bind(&["y"], update("y", 0, var("snap")), var("y")),
        ),
    );
    is(coalesce_shadow_self_noop_updates(n.clone()), n);
}

#[test]
fn variables_changed_in_a_branch_are_handed_on() {
    let n = bind(
        &[],
        cond(var("c"), bind(&["s"], update("s", 0, num(1)), unit()), unit()),
        var("s"),
    );
    is(
        lift_post_threading_phis(n),
        bind(
            &["s"],
            cond(
                var("c"),
                bind(&["s"], update("s", 0, num(1)), bind(&[], unit(), var("s"))),
                bind(&[], unit(), var("s")),
            ),
            var("s"),
        ),
    );
}

#[test]
fn branches_that_change_nothing_stay() {
    let n = bind(&[], cond(var("c"), call(1, vec![]), unit()), var("s"));
    is(lift_post_threading_phis(n.clone()), n);
}

#[test]
fn a_write_is_bound_to_its_reference() {
    is(
        fix_writeref_empty_patterns(bind(&[], write("r", num(1)), var("r"))),
        bind(&["r"], write("r", num(1)), var("r")),
    );
    let named = bind(&["q"], write("r", num(1)), var("r"));
    is(fix_writeref_empty_patterns(named.clone()), named);
}

#[test]
fn a_write_back_to_a_field_reaches_its_struct() {
    let back = || IRNode::WriteBack {
        child: "m".to_string(),
        parent: "t".to_string(),
        edge: WriteBackEdge::Direct,
    };
    let n = bind(
        &["t"],
        field("self", 2),
        bind(&["m"], call(1, vec![var("t")]), bind(&[], back(), var("self"))),
    );
    is(
        propagate_field_snapshot_writebacks(n),
        bind(
            &["t"],
            field("self", 2),
            bind(
                &["m"],
                call(1, vec![var("t")]),
                bind(&[], back(), bind(&["self"], update("self", 2, var("t")), var("self"))),
            ),
        ),
    );
}

#[test]
fn branches_of_a_reference_return_the_reference() {
    let program = Program::empty();
    let mut reg = VariableRegistry::new(&program);
    reg.register(
        "r".to_string(),
        Type::MutableReference(Box::new(Type::UInt(64)), Box::new(Type::UInt(64))),
    );
    let n = bind(&["r"], cond(var("c"), update("r", 0, num(1)), var("r")), var("r"));
    is(
        wrap_mutable_if_branch_terminals(n, &mut reg),
        bind(
            &["r"],
            cond(var("c"), write("r", update("r", 0, num(1))), var("r")),
            var("r"),
        ),
    );
}

#[test]
fn boolean_tails_become_propositions() {
    let program = Program::empty();
    let mut reg = VariableRegistry::new(&program);
    reg.register("b".to_string(), Type::Bool);
    reg.register("x".to_string(), Type::UInt(64));
    is(
        lift_bool_tails_to_prop(bind(&["y"], var("x"), var("b")), &mut reg),
        bind(&["y"], var("x"), IRNode::ToProp(Box::new(var("b")))),
    );
    reg.register("p".to_string(), Type::Prop);
    is(
        lift_bool_tails_to_prop(
            bind(&["q"], cond(var("b"), var("p"), var("b")), var("q")),
            &mut reg,
        ),
        bind(
            &["q"],
            cond(var("b"), var("p"), IRNode::ToProp(Box::new(var("b")))),
            var("q"),
        ),
    );
}

#[test]
fn mixed_branches_become_propositions() {
    let program = Program::empty();
    let mut reg = VariableRegistry::new(&program);
    reg.register("b".to_string(), Type::Bool);
    reg.register("p".to_string(), Type::Prop);
    is(
        fix_mixed_if_branches(cond(var("b"), var("p"), var("b")), &mut reg),
        cond(var("b"), var("p"), IRNode::ToProp(Box::new(var("b")))),
    );
}

#[test]
fn optimizing_runs_until_nothing_changes() {
    let program = Program::empty();
    let mut reg = VariableRegistry::new(&program);
    reg.register("a".to_string(), Type::Bool);
    let n = bind(
        &["u"],
        num(1),
        bind(&["v"], var("u"), bind(&["w"], not(not(var("a"))), var("w"))),
    );
    is(optimize(n.clone(), &mut reg, &KeepTemps), var("a"));
    is(optimize_with(n.clone(), &mut reg, true, Some(3), &KeepTemps), var("a"));
    let (settled, done) = optimize_settling(n, &mut reg, true, Some(3), &KeepTemps);
    is(settled, var("a"));
    assert!(done);
}

#[test]
fn an_optimized_expression_stays() {
    let program = Program::empty();
    let mut reg = VariableRegistry::new(&program);
    let n = bind(&["x"], call(1, vec![]), call(2, vec![var("x")]));
    is(optimize(n.clone(), &mut reg, &KeepTemps), n);
}

#[test]
fn outlines_look_below_bindings_and_calls_only() {
    assert!(same_outline(&field("x", 1), &field("y", 2)));
    assert!(!same_outline(&var("x"), &var("y")));
    assert!(!same_outline(&call(1, vec![var("x")]), &call(1, vec![var("y")])));
    assert!(!same_outline(&tuple(vec![var("x")]), &tuple(vec![])));
    let cast = |bits: u32| IRNode::UnOp { op: UnOp::Cast(bits), operand: Box::new(var("x")) };
    assert!(same_outline(&cast(8), &cast(64)));
}
