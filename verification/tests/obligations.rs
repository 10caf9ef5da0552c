//! Companions split into obligations.

use theorem_format::bundles::{AbortsLeaf, AbortsProofNode};
use theorem_format::decompose_aborts::{
    contract_aborts_enabled, decompose_aborts, requires_leaves_enabled,
};
use theorem_format::decompose_ensures::{decompose_ensures, ensures_bundles_enabled};
use theorem_format::ir::{AbortSource, BinOp, Const, IRNode};
use theorem_format::obligations::shorten;
use theorem_format::program::{
    Function, FunctionSignature, Module, Parameter, Program, ProofParam, ProofParamType,
};
use theorem_format::segments::is_atomizable;
use theorem_format::types::Type;
use theorem_format::word::Word;

fn var(x: &str) -> IRNode {
    IRNode::Var(x.to_string())
}

fn num(n: u64) -> IRNode {
    IRNode::Const(Const::UInt { bits: 64, value: Word::small(n) })
}

fn call(function: usize, args: Vec<IRNode>) -> IRNode {
    IRNode::Call { function, type_args: vec![], args }
}

fn bind(names: &[&str], value: IRNode, body: IRNode) -> IRNode {
    IRNode::Let {
        pattern: names.iter().map(|n| n.to_string()).collect(),
        value: Box::new(value),
        body: Box::new(body),
    }
}

fn cond(c: IRNode, t: IRNode, e: IRNode) -> IRNode {
    IRNode::If { cond: Box::new(c), then_branch: Box::new(t), else_branch: Box::new(e) }
}

fn bin(op: BinOp, l: IRNode, r: IRNode) -> IRNode {
    IRNode::BinOp { op, lhs: Box::new(l), rhs: Box::new(r) }
}

fn module(name: &str) -> Module {
    Module {
        name: name.to_string(),
        package_name: "Package".to_string(),
        required_imports: vec![],
        is_native: false,
    }
}

fn function(module_id: usize, name: &str, params: &[&str], body: IRNode) -> Function {
    Function {
        module_id,
        name: name.to_string(),
        signature: FunctionSignature {
            type_params: vec![],
            parameters: params
                .iter()
                .map(|p| Parameter {
                    name: p.to_string(),
                    param_type: Type::UInt(64),
                    ssa_value: p.to_string(),
                })
                .collect(),
            proof_params: vec![],
            return_type: Type::UInt(64),
        },
        body,
        theorem: None,
        is_native: false,
        mutual_group_id: None,
        is_uninterpreted: false,
    }
}

fn get(p: &Program, id: usize) -> &Function {
    for (k, f) in &p.functions {
        if *k == id {
            return f;
        }
    }
    panic!("no function {}", id)
}

fn has_body(p: &Program, id: usize, expected: IRNode) {
    let body = &get(p, id).body;
    assert!(body.same(&expected), "{:?}", body);
}

fn params(p: &Program, id: usize) -> Vec<String> {
    get(p, id).signature.parameters.iter().map(|q| q.name.clone()).collect()
}

fn fails() -> IRNode {
    IRNode::OptionSome(Box::new(IRNode::MoveAbortValue {
        source: AbortSource::UserAssert,
        code: Box::new(num(0)),
    }))
}

fn or_else(first: IRNode, second: IRNode) -> IRNode {
    IRNode::MatchOption {
        scrutinee: Box::new(first),
        binding: "__abort".to_string(),
        some_branch: Box::new(IRNode::OptionSome(Box::new(var("__abort")))),
        none_branch: Box::new(second),
    }
}

fn less(a: &str, b: &str) -> IRNode {
    bin(BinOp::Lt, var(a), var(b))
}

fn program(options: &[&str], body: IRNode) -> Program {
    let mut p = Program::empty();
    p.modules = vec![(0, module("m"))];
    let option = || Type::Option(Box::new(Type::MoveAbort));
    let mut g = function(0, "g.aborts", &["x"], cond(var("x"), fails(), IRNode::OptionNone));
    g.signature.return_type = option();
    g.is_native = true;
    let mut f = function(0, "f.aborts", &["x", "y"], body);
    f.signature.return_type = option();
    p.functions = vec![(1, g), (2, f)];
    p.lean_termination_decls.module_options =
        vec![(0, options.iter().map(|o| o.to_string()).collect())];
    p
}

fn two_checks() -> IRNode {
    or_else(
        cond(less("x", "y"), fails(), IRNode::OptionNone),
        call(1, vec![var("x")]),
    )
}

#[test]
fn options_are_read_from_any_module() {
    let p = program(&["contract_aborts", "requires_leaves"], IRNode::OptionNone);
    assert!(contract_aborts_enabled(&p));
    assert!(requires_leaves_enabled(&p));
    assert!(!ensures_bundles_enabled(&p));
}

#[test]
fn each_check_becomes_an_obligation() {
    let mut p = program(&["contract_aborts"], two_checks());
    decompose_aborts(&mut p);
    assert_eq!(p.aborts_bundles.len(), 1);
    let b = &p.aborts_bundles[0];
    assert_eq!(b.fn_id, 2);
    assert_eq!(b.obligations.len(), 2);
    assert_eq!(b.obligations[0].name, "ob_1");
    assert_eq!(b.obligations[0].parameters.len(), 2);
    match &b.obligations[0].leaf {
        AbortsLeaf::GuardFalse(c) => assert!(c.same(&less("x", "y"))),
        other => panic!("{:?}", other),
    }
    assert_eq!(b.obligations[1].name, "ob_2");
    assert_eq!(b.obligations[1].parameters.len(), 1);
    match &b.obligations[1].leaf {
        AbortsLeaf::OptionNone(c) => assert!(c.same(&call(1, vec![var("x")]))),
        other => panic!("{:?}", other),
    }
    match &b.proof {
        AbortsProofNode::OrElse(a, c) => {
            assert!(matches!(**a, AbortsProofNode::GuardFalse { ob: 0, .. }));
            assert!(matches!(**c, AbortsProofNode::Leaf { ob: 1 }));
        }
        other => panic!("{:?}", other),
    }
    has_body(&p, 2, two_checks());
}

#[test]
fn branches_become_premises() {
    let body = cond(
        less("x", "y"),
        call(1, vec![var("x")]),
        bind(&["z"], bin(BinOp::Add, var("x"), num(1)), call(1, vec![var("z")])),
    );
    let mut p = program(&["contract_aborts"], body);
    decompose_aborts(&mut p);
    assert_eq!(p.aborts_bundles.len(), 1);
    let b = &p.aborts_bundles[0];
    assert_eq!(b.obligations.len(), 2);
    assert_eq!(b.obligations[0].path.len(), 1);
    assert!(b.obligations[0].path[0].0.same(&less("x", "y")));
    assert!(b.obligations[0].path[0].1);
    assert!(!b.obligations[1].path[0].1);
    match &b.obligations[1].leaf {
        AbortsLeaf::OptionNone(c) => {
            assert!(c.same(&call(1, vec![bin(BinOp::Add, var("x"), num(1))])), "{:?}", c)
        }
        other => panic!("{:?}", other),
    }
    assert!(matches!(b.proof, AbortsProofNode::BIte(_, _)));
}

#[test]
fn small_companions_with_one_obligation_stay() {
    let mut p = program(&["contract_aborts"], call(1, vec![var("x")]));
    decompose_aborts(&mut p);
    assert!(p.aborts_bundles.is_empty());
    assert!(p.aborts_decompositions.is_empty());
}

#[test]
fn a_companion_that_never_aborts_has_an_empty_bundle() {
    let body = cond(less("x", "y"), IRNode::OptionNone, IRNode::OptionNone);
    let mut p = program(&["contract_aborts"], body);
    decompose_aborts(&mut p);
    assert_eq!(p.aborts_bundles.len(), 1);
    assert!(p.aborts_bundles[0].obligations.is_empty());
}

#[test]
fn without_the_option_small_companions_stay() {
    let mut p = program(&[], two_checks());
    decompose_aborts(&mut p);
    assert!(p.aborts_bundles.is_empty());
}

#[test]
fn large_companions_are_split_without_the_option() {
    let mut body = IRNode::OptionNone;
    let mut i: u64 = 0;
    while i < 400 {
        body = or_else(
            cond(bin(BinOp::Lt, var("x"), num(i)), fails(), IRNode::OptionNone),
            body,
        );
        i += 1;
    }
    let mut p = program(&[], body);
    decompose_aborts(&mut p);
    assert_eq!(p.aborts_bundles.len(), 1);
    assert_eq!(p.aborts_bundles[0].obligations.len(), 400);
    assert_eq!(p.aborts_bundles[0].obligations[399].name, "ob_400");
}

fn row(count: usize, more: IRNode) -> IRNode {
    let mut items: Vec<IRNode> = (0..count).map(|_| num(7)).collect();
    items.push(more);
    IRNode::Tuple(items)
}

#[test]
fn numbers_count_with_their_decimal_digits() {
    let short = |n: IRNode| shorten(&n, &vec![], false).is_some();
    assert!(short(row(165, num(100_000_000_000_000_000))));
    assert!(!short(row(165, num(1_000_000_000_000_000_000))));
    let wide = |n: u64| {
        IRNode::Tuple(vec![
            row(162, num(n)),
            IRNode::Const(Const::UInt {
                bits: 256,
                value: Word { hi: u128::MAX, lo: u128::MAX },
            }),
        ])
    };
    assert!(short(wide(100)));
    assert!(!short(wide(1_000)));
    let addresses = |count: u64, last: u64| {
        let mut elems: Vec<Const> = (0..count).map(|_| Const::Address(Word::small(5))).collect();
        elems.push(Const::Address(Word::small(last)));
        IRNode::Const(Const::Vector { elem_type: Type::Bool, elems })
    };
    assert!(short(addresses(495, 1_000_000)));
    assert!(!short(addresses(495, 10_000_000)));
}

#[test]
fn a_missing_precondition_becomes_an_obligation() {
    let body = call(1, vec![var("x"), IRNode::Abort { code: None }]);
    let mut p = program(&["contract_aborts", "requires_leaves"], body);
    p.functions[0].1.signature.proof_params = vec![ProofParam {
        name: "hpre".to_string(),
        param_type: ProofParamType::Verbatim("g_spec.requires x".to_string()),
    }];
    p.callee_requires_impls = vec![1];
    decompose_aborts(&mut p);
    assert_eq!(p.aborts_bundles.len(), 1);
    let b = &p.aborts_bundles[0];
    assert_eq!(b.obligations.len(), 2);
    assert!(matches!(&b.obligations[0].leaf, AbortsLeaf::RequiresHolds { callee: 1, .. }));
    assert!(matches!(
        &b.obligations[1].leaf,
        AbortsLeaf::CalleeNoneUnderRequires { callee: 1, .. }
    ));
    assert!(matches!(b.proof, AbortsProofNode::RequiresApp { req_ob: 0, call_ob: 1 }));
}

fn ensures_program(options: &[&str], name: &str, body: IRNode) -> Program {
    let mut p = program(options, IRNode::OptionNone);
    let mut f = function(0, name, &["x", "y"], body);
    f.signature.return_type = Type::Prop;
    p.functions.push((3, f));
    p
}

fn conjunction() -> IRNode {
    bind(
        &["both"],
        bin(BinOp::And, less("x", "y"), less("y", "x")),
        IRNode::ToProp(Box::new(var("both"))),
    )
}

#[test]
fn a_conjunction_is_split() {
    for name in ["f.ensures", "f.ensures_12"] {
        let mut p = ensures_program(&["ensures_bundles"], name, conjunction());
        decompose_ensures(&mut p);
        assert_eq!(p.ensures_bundles.len(), 1);
        let b = &p.ensures_bundles[0];
        assert_eq!(b.fn_id, 3);
        assert_eq!(b.obligations.len(), 2);
        match &b.obligations[0].leaf {
            AbortsLeaf::PropHolds(c) => {
                assert!(c.same(&IRNode::ToProp(Box::new(less("x", "y")))))
            }
            other => panic!("{:?}", other),
        }
        assert!(matches!(b.proof, AbortsProofNode::AndBool(_, _)));
    }
}

#[test]
fn other_companions_are_not_split() {
    let mut p = ensures_program(&["ensures_bundles"], "f.ensures_a", conjunction());
    decompose_ensures(&mut p);
    assert!(p.ensures_bundles.is_empty());
    let one = IRNode::ToProp(Box::new(less("x", "y")));
    let mut q = ensures_program(&["ensures_bundles"], "f.ensures", one);
    decompose_ensures(&mut q);
    assert!(q.ensures_bundles.is_empty());
    let mut r = ensures_program(&[], "f.ensures", conjunction());
    decompose_ensures(&mut r);
    assert!(r.ensures_bundles.is_empty());
}

#[test]
fn values_are_worth_a_name() {
    let update = IRNode::UpdateField {
        base: Box::new(var("s")),
        struct_id: 1,
        field_index: 0,
        value: Box::new(var("x")),
    };
    assert!(is_atomizable(&update));
    assert!(is_atomizable(&call(1, vec![num(2)])));
    assert!(is_atomizable(&bin(BinOp::Add, var("x"), num(1))));
    assert!(!is_atomizable(&var("x")));
    let placed = cond(var("c"), IRNode::Abort { code: None }, num(1));
    assert!(!is_atomizable(&placed));
    assert!(!is_atomizable(&bin(BinOp::Add, placed, num(1))));
}
