//! Passes that hand hypotheses and ghost variables through the functions of a
//! program.

use theorem_format::callee_requires_entry::thread_callee_requires_entry;
use theorem_format::callee_requires_precond::thread_callee_requires_precond;
use theorem_format::ghost_threading::thread_ghosts;
use theorem_format::ir::{Const, IRNode};
use theorem_format::lean_termination::thread_lean_terminations;
use theorem_format::loop_inv_entry::thread_loop_inv_entry;
use theorem_format::program::{
    Function, FunctionSignature, LoopInvHyp, Module, Parameter, Program, Struct,
};
use theorem_format::types::Type;
use theorem_format::word::Word;

fn var(x: &str) -> IRNode {
    IRNode::Var(x.to_string())
}

fn num(n: u64) -> IRNode {
    IRNode::Const(Const::UInt { bits: 64, value: Word::small(n) })
}

fn hole() -> IRNode {
    IRNode::Abort { code: None }
}

fn call(function: usize, args: Vec<IRNode>) -> IRNode {
    IRNode::Call { function, type_args: vec![], args }
}

fn unit() -> IRNode {
    IRNode::Tuple(vec![])
}

fn bind(names: &[&str], value: IRNode, body: IRNode) -> IRNode {
    IRNode::Let {
        pattern: names.iter().map(|n| n.to_string()).collect(),
        value: Box::new(value),
        body: Box::new(body),
    }
}

fn module(name: &str) -> Module {
    Module {
        name: name.to_string(),
        package_name: "Package".to_string(),
        required_imports: vec![],
        is_native: false,
    }
}

fn function(module_id: usize, name: &str, params: &[&str], body: IRNode) -> Function {
    Function {
        module_id,
        name: name.to_string(),
        signature: FunctionSignature {
            type_params: vec![],
            parameters: params
                .iter()
                .map(|p| Parameter {
                    name: p.to_string(),
                    param_type: Type::UInt(64),
                    ssa_value: p.to_string(),
                })
                .collect(),
            proof_params: vec![],
            return_type: Type::UInt(64),
        },
        body,
        theorem: None,
        is_native: false,
        mutual_group_id: None,
        is_uninterpreted: false,
    }
}

fn body(p: &Program, id: usize) -> &IRNode {
    for (k, f) in &p.functions {
        if *k == id {
            return &f.body;
        }
    }
    panic!("no function {}", id)
}

fn has_body(p: &Program, id: usize, expected: IRNode) {
    assert!(body(p, id).same(&expected), "{:?}", body(p, id));
}

fn proofs(p: &Program, id: usize) -> Vec<(String, String)> {
    for (k, v) in &p.fn_proof_params {
        if *k == id {
            return v.clone();
        }
    }
    vec![]
}

fn hpre(prop: &str) -> Vec<(String, String)> {
    vec![("hpre".to_string(), prop.to_string())]
}

fn entry_program(g_module: usize) -> Program {
    let mut p = Program::empty();
    p.modules = vec![(0, module("pool")), (1, module("math"))];
    p.functions = vec![
        (1, function(g_module, "g", &["x"], var("x"))),
        (2, function(0, "f", &["x"], call(1, vec![var("x"), hole()]))),
        (3, function(0, "f_spec", &["x"], call(2, vec![var("x")]))),
        (4, function(0, "h", &["x"], call(2, vec![var("x")]))),
    ];
    p.loop_inv_entry_impls = vec!["g".to_string()];
    p
}

#[test]
fn a_required_hypothesis_is_threaded_through_its_callers() {
    let mut p = entry_program(0);
    thread_callee_requires_entry(&mut p);
    assert_eq!(proofs(&p, 2), hpre("g_spec.requires x"));
    assert_eq!(p.callee_requires_impls, vec![2]);
    has_body(&p, 2, call(1, vec![var("x"), var("hpre")]));
    assert_eq!(proofs(&p, 3), hpre("f_spec.requires x"));
    has_body(&p, 3, call(2, vec![var("x"), var("hpre")]));
    assert_eq!(proofs(&p, 4), vec![]);
    has_body(&p, 4, call(2, vec![var("x"), hole()]));
}

#[test]
fn a_hypothesis_of_another_module_is_qualified() {
    let mut p = entry_program(1);
    thread_callee_requires_entry(&mut p);
    assert_eq!(proofs(&p, 2), hpre("Math.g_spec.requires x"));
    let mut q = entry_program(1);
    q.namespace_overrides = vec![(1, "Std.Math".to_string())];
    thread_callee_requires_entry(&mut q);
    assert_eq!(proofs(&q, 2), hpre("Std.Math.g_spec.requires x"));
}

#[test]
fn arguments_that_are_no_parameters_keep_the_hole() {
    let mut p = entry_program(0);
    p.functions[1].1.body = bind(&["t"], num(1), call(1, vec![var("t"), hole()]));
    thread_callee_requires_entry(&mut p);
    assert_eq!(proofs(&p, 2), vec![]);
    has_body(&p, 2, bind(&["t"], num(1), call(1, vec![var("t"), hole()])));
}

#[test]
fn without_entries_nothing_is_threaded() {
    let mut p = entry_program(0);
    p.loop_inv_entry_impls = vec![];
    thread_callee_requires_entry(&mut p);
    assert!(p.fn_proof_params.is_empty());
    has_body(&p, 2, call(1, vec![var("x"), hole()]));
}

fn precond_program() -> Program {
    let mut p = Program::empty();
    p.modules = vec![(0, module("pool")), (1, module("pool_Specs"))];
    p.functions = vec![
        (1, function(0, "g", &["x"], var("x"))),
        (2, function(
            0,
            "f.while_0",
            &["$t4", "i#1#0", "dead"],
            bind(
                &["t"],
                call(9, vec![var("$t4"), var("i#1#0")]),
                call(1, vec![var("t"), hole()]),
            ),
        )),
        (3, function(0, "f", &["y"], call(2, vec![var("y"), var("y"), var("y")]))),
        (4, function(1, "f_spec", &["y"], call(3, vec![var("y")]))),
        (5, function(0, "k", &["y"], call(3, vec![var("y")]))),
        (9, function(0, "mix", &["a", "b"], var("a"))),
    ];
    p.callee_requires_impls = vec![1];
    p.lean_termination_decls.precond =
        vec!["f.while_0".to_string(), "f".to_string(), "f_spec".to_string()];
    p
}

#[test]
fn a_declared_precondition_climbs_to_the_specification() {
    let mut p = precond_program();
    thread_callee_requires_precond(&mut p);
    assert_eq!(proofs(&p, 2), hpre("f.while_0.precond t_t4 i_1_0"));
    assert_eq!(p.callee_requires_precond_callers, vec![2]);
    assert_eq!(proofs(&p, 3), hpre("f.precond y"));
    has_body(&p, 3, call(2, vec![var("y"), var("y"), var("y"), hole()]));
    assert_eq!(proofs(&p, 4), hpre("f_spec.precond y"));
    has_body(&p, 4, call(3, vec![var("y"), hole()]));
    assert_eq!(proofs(&p, 5), vec![]);
    has_body(&p, 5, call(3, vec![var("y"), hole()]));
    for name in ["f.while_0", "f", "f_spec"] {
        assert!(p.loop_inv_entry_impls.contains(&name.to_string()));
    }
}

#[test]
fn without_declarations_no_precondition_is_threaded() {
    let mut p = precond_program();
    p.lean_termination_decls.precond = vec![];
    thread_callee_requires_precond(&mut p);
    assert!(p.fn_proof_params.is_empty());
}

fn loop_program(spec_module: &str) -> Program {
    let mut p = Program::empty();
    p.modules = vec![(0, module("pool")), (1, module(spec_module))];
    p.functions = vec![
        (1, function(0, "f.while_0", &["x"], call(1, vec![var("x"), var("hinv")]))),
        (2, function(0, "f", &["x"], call(1, vec![var("x"), hole()]))),
        (3, function(1, "f_spec", &["y"], call(2, vec![var("y")]))),
        (4, function(0, "h", &["y"], call(2, vec![var("y")]))),
    ];
    p.loop_inv_hyps = vec![(
        1,
        LoopInvHyp { hyp_param: "hinv".to_string(), hook_name: "f.loop_hyp".to_string() },
    )];
    p
}

#[test]
fn an_entered_loop_takes_its_invariant_from_the_specification() {
    let mut p = loop_program("pool_specs");
    thread_loop_inv_entry(&mut p);
    assert_eq!(proofs(&p, 2), hpre("f_spec.requires x"));
    assert_eq!(p.loop_inv_entry_impls, vec!["f".to_string()]);
    assert_eq!(proofs(&p, 3), hpre("f_spec.requires y"));
    has_body(&p, 3, call(2, vec![var("y"), var("hpre")]));
    has_body(&p, 4, call(2, vec![var("y"), hole()]));
}

#[test]
fn a_specification_elsewhere_gives_no_hypothesis() {
    let mut p = loop_program("other_specs");
    thread_loop_inv_entry(&mut p);
    assert_eq!(proofs(&p, 2), vec![]);
    assert_eq!(p.loop_inv_entry_impls, vec!["f".to_string()]);
    has_body(&p, 3, call(2, vec![var("y")]));
}

#[test]
fn without_loop_hypotheses_nothing_is_entered() {
    let mut p = loop_program("pool_specs");
    p.loop_inv_hyps = vec![];
    thread_loop_inv_entry(&mut p);
    assert!(p.loop_inv_entry_impls.is_empty());
}

fn recursive_program() -> Program {
    let mut p = Program::empty();
    p.modules = vec![(0, module("heap")), (1, module("heap_specs"))];
    p.functions = vec![
        (1, function(0, "sift", &["v", "i"], call(1, vec![var("v"), var("i")]))),
        (2, function(0, "pop", &["v", "unused"], call(1, vec![var("v"), num(0)]))),
        (3, function(1, "pop_spec", &["w"], call(2, vec![var("w"), num(1)]))),
        (4, function(0, "sift.after", &["v"], call(1, vec![var("v"), num(2)]))),
    ];
    p.functions[0].1.mutual_group_id = Some(0);
    p.lean_termination_decls.loop_hyp = vec!["sift".to_string()];
    p
}

#[test]
fn a_declared_measure_is_threaded_through_the_recursion() {
    let mut p = recursive_program();
    thread_lean_terminations(&mut p);
    assert_eq!(p.loop_inv_hyps.len(), 1);
    assert_eq!(p.loop_inv_hyps[0].0, 1);
    assert_eq!(p.loop_inv_hyps[0].1.hyp_param, "hinv");
    assert_eq!(p.loop_inv_hyps[0].1.hook_name, "sift.loop_hyp");
    assert_eq!(p.loop_invariants, vec![("sift".to_string(), 1)]);
    has_body(&p, 1, call(1, vec![var("v"), var("i"), hole()]));
    has_body(&p, 4, call(1, vec![var("v"), num(2), hole()]));
    has_body(&p, 2, call(1, vec![var("v"), num(0), hole()]));
    assert_eq!(proofs(&p, 2), hpre("pop.precond v"));
    has_body(&p, 3, call(2, vec![var("w"), num(1), hole()]));
    assert_eq!(proofs(&p, 3), vec![]);
    assert_eq!(proofs(&p, 4), vec![]);
    assert_eq!(p.loop_inv_entry_impls, vec!["pop".to_string()]);
}

#[test]
fn without_a_declared_measure_nothing_is_threaded() {
    let mut p = recursive_program();
    p.lean_termination_decls.loop_hyp = vec!["other".to_string()];
    thread_lean_terminations(&mut p);
    assert!(p.loop_inv_hyps.is_empty());
    has_body(&p, 1, call(1, vec![var("v"), var("i")]));
}

fn marker(id: usize) -> Type {
    Type::Struct { struct_id: id, type_args: vec![] }
}

fn named_struct(name: &str) -> Struct {
    Struct {
        module_id: 0,
        name: name.to_string(),
        type_params: vec![],
        fields: vec![],
        variants: None,
        mutual_group_id: None,
    }
}

fn ghost_program() -> Program {
    let mut p = Program::empty();
    p.modules = vec![(0, module("transfer")), (1, module("ghost"))];
    p.structs = vec![(7, named_struct("Count"))];
    let mut native = function(0, "send", &["x"], unit());
    native.is_native = true;
    native.signature.return_type = Type::Tuple(vec![]);
    let mut set = function(1, "set", &["v"], unit());
    set.signature.return_type = Type::Tuple(vec![]);
    p.functions = vec![
        (1, native),
        (2, function(0, "f", &["x"], bind(&[], call(1, vec![var("x")]), var("x")))),
        (3, function(0, "g", &["x"], bind(&["r"], call(2, vec![var("x")]), var("r")))),
        (4, function(0, "g.aborts", &["x"], bind(&["r"], call(2, vec![var("x")]), num(0)))),
        (5, set),
        (6, function(1, "global", &[], unit())),
        (8, function(
            0,
            "k",
            &["x"],
            bind(
                &[],
                IRNode::Call {
                    function: 5,
                    type_args: vec![marker(7), Type::UInt(64)],
                    args: vec![var("x")],
                },
                IRNode::Call {
                    function: 6,
                    type_args: vec![marker(7), Type::UInt(64)],
                    args: vec![],
                },
            ),
        )),
    ];
    p.ghost_native_seed = vec![(1, vec![(marker(7), Type::UInt(64))])];
    p
}

fn signature(p: &Program, id: usize) -> (Vec<String>, &Type) {
    for (k, f) in &p.functions {
        if *k == id {
            let names = f.signature.parameters.iter().map(|q| q.name.clone()).collect();
            return (names, &f.signature.return_type);
        }
    }
    panic!("no function {}", id)
}

#[test]
fn ghost_variables_reach_every_caller() {
    let mut p = ghost_program();
    thread_ghosts(&mut p);
    let ghost = "__ghost_Count";
    assert_eq!(p.functions[0].1.name, "send__ghost");
    let (names, ret) = signature(&p, 1);
    assert_eq!(names, vec!["x".to_string(), ghost.to_string()]);
    assert!(ret.same(&Type::UInt(64)));
    let (names, ret) = signature(&p, 2);
    assert_eq!(names, vec!["x".to_string(), ghost.to_string()]);
    assert!(ret.same(&Type::Tuple(vec![Type::UInt(64), Type::UInt(64)])));
    has_body(
        &p,
        2,
        bind(
            &[ghost],
            call(1, vec![var("x"), var(ghost)]),
            IRNode::Tuple(vec![var("x"), var(ghost)]),
        ),
    );
    has_body(
        &p,
        3,
        bind(
            &["r", ghost],
            call(2, vec![var("x"), var(ghost)]),
            IRNode::Tuple(vec![var("r"), var(ghost)]),
        ),
    );
    let (names, ret) = signature(&p, 4);
    assert_eq!(names, vec!["x".to_string(), ghost.to_string()]);
    assert!(ret.same(&Type::UInt(64)));
    has_body(&p, 4, bind(&["r", ghost], call(2, vec![var("x"), var(ghost)]), num(0)));
    assert!(p.ghost_native_seed.is_empty());
}

#[test]
fn ghost_variables_stand_in_the_order_of_their_structures() {
    let mut p = ghost_program();
    p.structs.push((2, named_struct("Balance")));
    p.ghost_native_seed = vec![(
        1,
        vec![(marker(7), Type::UInt(64)), (marker(2), Type::Bool)],
    )];
    thread_ghosts(&mut p);
    let (names, _) = signature(&p, 3);
    assert_eq!(
        names,
        vec!["x".to_string(), "__ghost_Balance".to_string(), "__ghost_Count".to_string()]
    );
    let recorded: Vec<usize> = p.ghost_vars.iter().map(|(id, _)| *id).collect();
    assert_eq!(recorded, vec![1, 2, 3, 4, 8]);
    for (id, ms) in &p.ghost_vars {
        if *id != 8 {
            assert_eq!(ms.len(), 2);
            assert!(ms[0].0.same(&marker(2)) && ms[1].0.same(&marker(7)));
        } else {
            assert_eq!(ms.len(), 1);
        }
    }
}

#[test]
fn ghost_operations_become_variables() {
    let mut p = ghost_program();
    thread_ghosts(&mut p);
    let ghost = "__ghost_Count";
    let (names, ret) = signature(&p, 8);
    assert_eq!(names, vec!["x".to_string(), ghost.to_string()]);
    assert!(ret.same(&Type::Tuple(vec![Type::UInt(64), Type::UInt(64)])));
    has_body(
        &p,
        8,
        bind(&[ghost], var("x"), IRNode::Tuple(vec![var(ghost), var(ghost)])),
    );
}

#[test]
fn without_seeds_no_ghost_is_threaded() {
    let mut p = ghost_program();
    p.ghost_native_seed = vec![];
    thread_ghosts(&mut p);
    assert_eq!(p.functions[0].1.name, "send");
    assert!(p.ghost_vars.is_empty());
}
