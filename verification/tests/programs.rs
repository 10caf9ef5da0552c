//! Passes over the functions, structures and modules of a program.

use theorem_format::dead_param_elimination::eliminate_dead_params;
use theorem_format::dependency_order::order_by_dependencies;
use theorem_format::early_return::inline_abort_only_after_calls;
use theorem_format::import_collection::collect_imports;
use theorem_format::inject_arithmetic_aborts::{collapse_none, inject_arithmetic_aborts};
use theorem_format::ir::{AbortSource, BinOp, Const, IRNode};
use theorem_format::loop_body_extraction::extract_loop_bodies;
use theorem_format::program::{
    FieldDef, Function, FunctionSignature, Module, Parameter, Program, Struct,
};
use theorem_format::types::Type;
use theorem_format::word::Word;

fn var(x: &str) -> IRNode {
    IRNode::Var(x.to_string())
}

fn num(n: u64) -> IRNode {
    IRNode::Const(Const::UInt { bits: 64, value: Word::small(n) })
}

fn call(function: usize, args: Vec<IRNode>) -> IRNode {
    IRNode::Call { function, type_args: vec![], args }
}

fn bind(names: &[&str], value: IRNode, body: IRNode) -> IRNode {
    IRNode::Let {
        pattern: names.iter().map(|n| n.to_string()).collect(),
        value: Box::new(value),
        body: Box::new(body),
    }
}

fn cond(c: IRNode, t: IRNode, e: IRNode) -> IRNode {
    IRNode::If { cond: Box::new(c), then_branch: Box::new(t), else_branch: Box::new(e) }
}

fn bin(op: BinOp, l: IRNode, r: IRNode) -> IRNode {
    IRNode::BinOp { op, lhs: Box::new(l), rhs: Box::new(r) }
}

fn module(name: &str) -> Module {
    Module {
        name: name.to_string(),
        package_name: "Package".to_string(),
        required_imports: vec![],
        is_native: false,
    }
}

fn function(module_id: usize, name: &str, params: &[&str], body: IRNode) -> Function {
    Function {
        module_id,
        name: name.to_string(),
        signature: FunctionSignature {
            type_params: vec![],
            parameters: params
                .iter()
                .map(|p| Parameter {
                    name: p.to_string(),
                    param_type: Type::UInt(64),
                    ssa_value: p.to_string(),
                })
                .collect(),
            proof_params: vec![],
            return_type: Type::UInt(64),
        },
        body,
        theorem: None,
        is_native: false,
        mutual_group_id: None,
        is_uninterpreted: false,
    }
}

fn get(p: &Program, id: usize) -> &Function {
    for (k, f) in &p.functions {
        if *k == id {
            return f;
        }
    }
    panic!("no function {}", id)
}

fn has_body(p: &Program, id: usize, expected: IRNode) {
    let body = &get(p, id).body;
    assert!(body.same(&expected), "{:?}", body);
}

fn params(p: &Program, id: usize) -> Vec<String> {
    get(p, id).signature.parameters.iter().map(|q| q.name.clone()).collect()
}

fn structure(module_id: usize, name: &str, fields: Vec<Type>) -> Struct {
    Struct {
        module_id,
        name: name.to_string(),
        type_params: vec![],
        fields: fields
            .into_iter()
            .map(|t| FieldDef { name: "f".to_string(), field_type: t })
            .collect(),
        variants: None,
        mutual_group_id: None,
    }
}

fn of(id: usize) -> Type {
    Type::Struct { struct_id: id, type_args: vec![] }
}

#[test]
fn unread_parameters_go_with_their_arguments() {
    let mut p = Program::empty();
    p.modules = vec![(0, module("m"))];
    p.functions = vec![
        (1, function(0, "f", &["a", "b"], var("b"))),
        (2, function(0, "g", &["x", "y"], call(1, vec![var("x"), var("y")]))),
        (3, function(0, "f_spec", &["z"], num(1))),
        (4, function(0, "f.aborts", &["z"], num(1))),
    ];
    eliminate_dead_params(&mut p);
    assert_eq!(params(&p, 1), vec!["b".to_string()]);
    assert_eq!(params(&p, 2), vec!["y".to_string()]);
    has_body(&p, 2, call(1, vec![var("y")]));
    assert_eq!(params(&p, 3), vec!["z".to_string()]);
    assert_eq!(params(&p, 4), vec!["z".to_string()]);
}

#[test]
fn parameters_go_however_long_the_chain_is() {
    let mut p = Program::empty();
    p.modules = vec![(0, module("m"))];
    for i in 0..30 {
        let name = format!("f{}", i);
        p.functions.push((i, function(0, &name, &["x"], call(i + 1, vec![var("x")]))));
    }
    p.functions.push((30, function(0, "last", &["x"], num(1))));
    eliminate_dead_params(&mut p);
    for i in 0..31 {
        assert!(params(&p, i).is_empty());
    }
    has_body(&p, 0, call(1, vec![]));
}

#[test]
fn a_parameter_that_a_group_only_hands_round_goes() {
    let mut p = Program::empty();
    p.modules = vec![(0, module("m"))];
    p.functions = vec![
        (1, function(0, "even", &["n", "t"], call(2, vec![bin(BinOp::Sub, var("n"), num(1)), var("t")]))),
        (2, function(0, "odd", &["n", "t"], call(1, vec![bin(BinOp::Sub, var("n"), num(1)), var("t")]))),
    ];
    p.functions[0].1.mutual_group_id = Some(3);
    p.functions[1].1.mutual_group_id = Some(3);
    eliminate_dead_params(&mut p);
    assert_eq!(params(&p, 1), vec!["n".to_string()]);
    assert_eq!(params(&p, 2), vec!["n".to_string()]);
    has_body(&p, 1, call(2, vec![bin(BinOp::Sub, var("n"), num(1))]));
}

#[test]
fn a_parameter_that_one_of_a_group_reads_stays() {
    let mut p = Program::empty();
    p.modules = vec![(0, module("m"))];
    p.functions = vec![
        (1, function(0, "even", &["t"], call(2, vec![var("t")]))),
        (2, function(0, "odd", &["t"], bind(&["u"], call(1, vec![var("t")]), var("t")))),
    ];
    p.functions[0].1.mutual_group_id = Some(3);
    p.functions[1].1.mutual_group_id = Some(3);
    eliminate_dead_params(&mut p);
    assert_eq!(params(&p, 1), vec!["t".to_string()]);
    assert_eq!(params(&p, 2), vec!["t".to_string()]);
}

#[test]
fn dependencies_come_first() {
    let mut p = Program::empty();
    p.modules = vec![(0, module("m"))];
    p.functions = vec![
        (10, function(0, "top", &[], call(20, vec![]))),
        (20, function(0, "middle", &[], call(30, vec![]))),
        (30, function(0, "bottom", &[], num(1))),
    ];
    p.structs = vec![
        (5, structure(0, "Outer", vec![of(6)])),
        (6, structure(0, "Inner", vec![Type::Bool])),
    ];
    order_by_dependencies(&mut p);
    let ids: Vec<usize> = p.functions.iter().map(|(id, _)| *id).collect();
    assert_eq!(ids, vec![30, 20, 10]);
    let sids: Vec<usize> = p.structs.iter().map(|(id, _)| *id).collect();
    assert_eq!(sids, vec![6, 5]);
    assert!(p.functions.iter().all(|(_, f)| f.mutual_group_id.is_none()));
}

#[test]
fn recursive_functions_are_grouped() {
    let mut p = Program::empty();
    p.modules = vec![(0, module("m"))];
    p.functions = vec![
        (1, function(0, "user", &[], call(2, vec![]))),
        (2, function(0, "even", &[], call(3, vec![]))),
        (3, function(0, "odd", &[], call(2, vec![]))),
        (4, function(0, "own", &[], call(4, vec![]))),
        (5, function(0, "plain", &[], num(1))),
    ];
    p.functions[4].1.mutual_group_id = Some(99);
    order_by_dependencies(&mut p);
    let at = |id: usize| p.functions.iter().position(|(k, _)| *k == id).unwrap();
    assert!(at(2) < at(1) && at(3) < at(1));
    assert_eq!(get(&p, 2).mutual_group_id, get(&p, 3).mutual_group_id);
    assert!(get(&p, 2).mutual_group_id.is_some());
    assert!(get(&p, 4).mutual_group_id.is_some());
    assert!(get(&p, 4).mutual_group_id != get(&p, 2).mutual_group_id);
    assert_eq!(get(&p, 1).mutual_group_id, None);
    assert_eq!(get(&p, 5).mutual_group_id, None);
}

#[test]
fn functions_that_call_each_other_stand_together() {
    let mut p = Program::empty();
    p.modules = vec![(0, module("m"))];
    p.functions = vec![
        (1, function(0, "a", &[], call(3, vec![]))),
        (2, function(0, "b", &[], call(4, vec![]))),
        (3, function(0, "c", &[], call(5, vec![]))),
        (4, function(0, "d", &[], call(2, vec![]))),
        (5, function(0, "e", &[], call(1, vec![]))),
    ];
    order_by_dependencies(&mut p);
    let mut ids: Vec<usize> = p.functions.iter().map(|(id, _)| *id).collect();
    let groups: Vec<Option<usize>> = p.functions.iter().map(|(_, f)| f.mutual_group_id).collect();
    let own = |id: usize| get(&p, id).mutual_group_id;
    assert!(own(1).is_some() && own(1) == own(3) && own(3) == own(5));
    assert!(own(2).is_some() && own(2) == own(4) && own(2) != own(1));
    let changes = (1..groups.len()).filter(|i| groups[*i] != groups[i - 1]).count();
    assert_eq!(changes, 1);
    ids.sort();
    assert_eq!(ids, vec![1, 2, 3, 4, 5]);
}

#[test]
fn modules_import_what_they_use() {
    let mut p = Program::empty();
    p.modules = vec![
        (0, module("a")),
        (1, module("b")),
        (2, module("c")),
        (3, module("d")),
        (4, Module {
            name: "a".to_string(),
            package_name: "PackageSpecs".to_string(),
            required_imports: vec![9],
            is_native: false,
        }),
    ];
    p.structs = vec![
        (1, structure(1, "B", vec![])),
        (2, structure(2, "C", vec![of(1)])),
    ];
    let mut f = function(0, "f", &["x"], bind(&["y"], call(2, vec![]), call(3, vec![])));
    f.signature.return_type = of(2);
    p.functions = vec![
        (1, f),
        (2, function(3, "g", &[], num(1))),
        (3, function(4, "f_spec", &[], call(1, vec![]))),
    ];
    collect_imports(&mut p);
    let imports = |id: usize| -> Vec<usize> {
        for (k, m) in &p.modules {
            if *k == id {
                let mut v = m.required_imports.clone();
                v.sort();
                return v;
            }
        }
        panic!("no module {}", id)
    };
    assert_eq!(imports(0), vec![2, 3]);
    assert_eq!(imports(1), vec![]);
    assert_eq!(imports(2), vec![1]);
    assert_eq!(imports(3), vec![]);
    assert_eq!(imports(4), vec![0]);
}

fn loop_program() -> Program {
    let mut p = Program::empty();
    p.modules = vec![(0, module("m"))];
    let mut w = function(
        0,
        "f.while_0",
        &["i", "n"],
        bind(
            &["go"],
            bin(BinOp::Lt, var("i"), var("n")),
            cond(
                var("go"),
                bind(
                    &["a"],
                    bin(BinOp::Add, var("i"), num(1)),
                    bind(
                        &["b"],
                        bin(BinOp::Mul, var("a"), num(2)),
                        call(1, vec![var("b"), var("n")]),
                    ),
                ),
                var("i"),
            ),
        ),
    );
    w.mutual_group_id = Some(0);
    p.functions = vec![(1, w)];
    p
}

#[test]
fn the_body_of_a_loop_becomes_a_step() {
    let mut p = loop_program();
    p.fn_hascode_params = vec![(1, vec![0])];
    extract_loop_bodies(&mut p);
    assert_eq!(p.functions.len(), 2);
    let (id, step) = &p.functions[1];
    assert_eq!(step.name, "f.while_0.step");
    assert_eq!(params(&p, *id), vec!["i".to_string()]);
    assert!(step.signature.return_type.same(&Type::UInt(64)));
    has_body(
        &p,
        *id,
        bind(
            &["a"],
            bin(BinOp::Add, var("i"), num(1)),
            bind(&["b"], bin(BinOp::Mul, var("a"), num(2)), var("b")),
        ),
    );
    has_body(
        &p,
        1,
        bind(
            &["go"],
            bin(BinOp::Lt, var("i"), var("n")),
            cond(
                var("go"),
                bind(&["b"], call(*id, vec![var("i")]), call(1, vec![var("b"), var("n")])),
                var("i"),
            ),
        ),
    );
    assert!(p.fn_hascode_params.iter().any(|(k, v)| k == id && *v == vec![0]));
}

#[test]
fn loops_with_a_measure_keep_their_bodies() {
    let mut p = loop_program();
    p.lean_termination_decls.termination = vec!["f.while_0".to_string()];
    extract_loop_bodies(&mut p);
    assert_eq!(p.functions.len(), 1);
    let mut q = loop_program();
    q.functions[0].1.name = "f.while_0.after".to_string();
    extract_loop_bodies(&mut q);
    assert_eq!(q.functions.len(), 1);
}

#[test]
fn a_light_loop_body_stays() {
    let mut p = Program::empty();
    p.modules = vec![(0, module("m"))];
    let body = cond(
        var("g"),
        bind(&["y"], var("x"), call(1, vec![var("g"), var("y")])),
        var("x"),
    );
    let mut w = function(0, "f.while_0", &["g", "x"], body.clone());
    w.signature.parameters[0].param_type = Type::Bool;
    w.mutual_group_id = Some(0);
    p.functions = vec![(1, w)];
    extract_loop_bodies(&mut p);
    assert_eq!(p.functions.len(), 1);
    has_body(&p, 1, body);
}

fn none_where_absent(some: IRNode, none: IRNode) -> IRNode {
    IRNode::MatchOption {
        scrutinee: Box::new(var("o")),
        binding: "x".to_string(),
        some_branch: Box::new(some),
        none_branch: Box::new(none),
    }
}

#[test]
fn what_never_aborts_collapses() {
    let idle = none_where_absent(IRNode::OptionNone, IRNode::OptionNone);
    assert!(collapse_none(&idle).same(&IRNode::OptionNone));
    let half = none_where_absent(arithmetic(), cond(var("c"), idle, IRNode::OptionNone));
    assert!(collapse_none(&half).same(&none_where_absent(arithmetic(), IRNode::OptionNone)));
}

fn arithmetic() -> IRNode {
    IRNode::OptionSome(Box::new(IRNode::MoveAbortValue {
        source: AbortSource::Arithmetic,
        code: Box::new(num(0)),
    }))
}

fn asserted(code: IRNode) -> IRNode {
    IRNode::OptionSome(Box::new(IRNode::MoveAbortValue {
        source: AbortSource::UserAssert,
        code: Box::new(code),
    }))
}

fn or_else(first: IRNode, second: IRNode) -> IRNode {
    IRNode::MatchOption {
        scrutinee: Box::new(first),
        binding: "__abort".to_string(),
        some_branch: Box::new(IRNode::OptionSome(Box::new(var("__abort")))),
        none_branch: Box::new(second),
    }
}

#[test]
fn arithmetic_aborts_are_found() {
    let mut p = Program::empty();
    p.modules = vec![(0, module("m"))];
    p.functions = vec![
        (1, function(0, "f", &["a", "b"], bin(BinOp::Div, var("a"), var("b")))),
        (2, function(0, "f.aborts", &["a", "b"], IRNode::Const(Const::Bool(false)))),
    ];
    inject_arithmetic_aborts(&mut p);
    has_body(
        &p,
        2,
        cond(bin(BinOp::Eq, var("b"), num(0)), arithmetic(), IRNode::OptionNone),
    );
    assert!(get(&p, 2).signature.return_type.same(&Type::Option(Box::new(Type::MoveAbort))));
}

#[test]
fn assertions_follow_arithmetic() {
    let mut p = Program::empty();
    p.modules = vec![(0, module("m"))];
    let fails = IRNode::Const(Const::Bool(true));
    let holds = IRNode::Const(Const::Bool(false));
    p.functions = vec![
        (1, function(0, "f", &["a", "b"], bin(BinOp::Add, var("a"), var("b")))),
        (2, function(
            0,
            "f.aborts",
            &["a", "b"],
            cond(bin(BinOp::Lt, var("a"), var("b")), fails, holds),
        )),
    ];
    inject_arithmetic_aborts(&mut p);
    let overflow = cond(
        IRNode::ArithOverflowCheck {
            op: BinOp::Add,
            lhs: Box::new(var("a")),
            rhs: Box::new(var("b")),
        },
        arithmetic(),
        IRNode::OptionNone,
    );
    let assertion = cond(
        bin(BinOp::Lt, var("a"), var("b")),
        asserted(num(0)),
        IRNode::OptionNone,
    );
    has_body(&p, 2, or_else(overflow, assertion));
}

#[test]
fn callees_abort_their_callers() {
    let mut p = Program::empty();
    p.modules = vec![(0, module("m"))];
    p.functions = vec![
        (1, function(0, "f", &["a", "b"], bin(BinOp::Div, var("a"), var("b")))),
        (2, function(0, "f.aborts", &["a", "b"], IRNode::Const(Const::Bool(false)))),
        (3, function(0, "g", &["a"], call(1, vec![var("a"), var("a")]))),
        (4, function(0, "g.aborts", &["a"], IRNode::Const(Const::Bool(false)))),
    ];
    inject_arithmetic_aborts(&mut p);
    has_body(&p, 4, or_else(call(2, vec![var("a"), var("a")]), IRNode::OptionNone));
}

#[test]
fn loops_that_cannot_abort_at_their_exit_say_none() {
    let mut p = Program::empty();
    p.modules = vec![(0, module("m"))];
    p.functions = vec![
        (1, function(0, "f.while_0", &["a"], call(1, vec![bin(BinOp::Div, num(1), var("a"))]))),
        (2, function(0, "f.while_0.aborts", &["a"], IRNode::Const(Const::Bool(true)))),
    ];
    p.functions[1].1.mutual_group_id = Some(1);
    inject_arithmetic_aborts(&mut p);
    has_body(&p, 2, IRNode::OptionNone);
}

#[test]
fn calls_that_always_abort_are_inlined() {
    let mut p = Program::empty();
    p.modules = vec![(0, module("m"))];
    let abort = |n: u64| IRNode::Abort { code: Some(Box::new(num(n))) };
    p.functions = vec![
        (1, function(0, "f.while_0.after", &["x"], bind(&["c"], num(1), abort(7)))),
        (2, function(
            0,
            "f.while_0",
            &["x"],
            cond(
                var("x"),
                bind(&["r"], call(1, vec![var("x")]), var("r")),
                call(2, vec![var("x")]),
            ),
        )),
        (3, function(0, "f.while_0.aborts", &["x"], bind(&["r"], call(1, vec![var("x")]), var("r")))),
    ];
    inline_abort_only_after_calls(&mut p);
    has_body(&p, 2, cond(var("x"), abort(7), call(2, vec![var("x")])));
    has_body(&p, 3, bind(&["r"], call(1, vec![var("x")]), var("r")));
}
