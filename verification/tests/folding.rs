//! Constant folding, simplification and the removal of dead code.

use theorem_format::constant_folding::fold_constants;
use theorem_format::dead_code_removal::{remove_dead_code, simplify_tuple_patterns};
use theorem_format::ir::{BinOp, BitOp, Const, IRNode, UnOp};
use theorem_format::logical_simplification::{evaluates_to_bool, simplify};
use theorem_format::word::Word;

fn var(x: &str) -> IRNode {
    IRNode::Var(x.to_string())
}

fn lit(b: bool) -> IRNode {
    IRNode::Const(Const::Bool(b))
}

fn num(bits: usize, n: u64) -> IRNode {
    IRNode::Const(Const::UInt { bits, value: Word::small(n) })
}

fn wide(hi: u128, lo: u128) -> IRNode {
    IRNode::Const(Const::UInt { bits: 256, value: Word { hi, lo } })
}

fn bin(op: BinOp, l: IRNode, r: IRNode) -> IRNode {
    IRNode::BinOp { op, lhs: Box::new(l), rhs: Box::new(r) }
}

fn un(op: UnOp, x: IRNode) -> IRNode {
    IRNode::UnOp { op, operand: Box::new(x) }
}

fn call(function: usize, args: Vec<IRNode>) -> IRNode {
    IRNode::Call { function, type_args: vec![], args }
}

fn bind(names: &[&str], value: IRNode, body: IRNode) -> IRNode {
    IRNode::Let {
        pattern: names.iter().map(|n| n.to_string()).collect(),
        value: Box::new(value),
        body: Box::new(body),
    }
}

fn cond(c: IRNode, t: IRNode, e: IRNode) -> IRNode {
    IRNode::If { cond: Box::new(c), then_branch: Box::new(t), else_branch: Box::new(e) }
}

fn folds_to(n: IRNode, expected: IRNode) {
    let r = fold_constants(n);
    assert!(r.same(&expected), "{:?}", r);
}

#[test]
fn addition_wraps_at_the_width() {
    folds_to(bin(BinOp::Add, num(8, 250), num(8, 10)), num(8, 4));
    folds_to(bin(BinOp::Add, num(64, 250), num(8, 10)), num(64, 260));
    folds_to(bin(BinOp::Add, wide(u128::MAX, u128::MAX), wide(0, 2)), wide(0, 1));
}

#[test]
fn subtraction_wraps_at_the_width() {
    folds_to(bin(BinOp::Sub, num(8, 3), num(8, 5)), num(8, 254));
    folds_to(bin(BinOp::Sub, wide(0, 0), wide(0, 1)), wide(u128::MAX, u128::MAX));
}

#[test]
fn multiplication_wraps_at_the_width() {
    folds_to(bin(BinOp::Mul, num(8, 16), num(8, 17)), num(8, 16));
    folds_to(bin(BinOp::Mul, wide(0, 1 << 127), wide(0, 2)), wide(1, 0));
}

#[test]
fn division_and_remainder() {
    folds_to(bin(BinOp::Div, num(64, 17), num(64, 5)), num(64, 3));
    folds_to(bin(BinOp::Mod, num(64, 17), num(64, 5)), num(64, 2));
}

#[test]
fn division_by_zero_stays() {
    let n = bin(BinOp::Div, num(64, 17), num(64, 0));
    folds_to(n.clone(), n);
    let n = bin(BinOp::Mod, num(64, 17), num(64, 0));
    folds_to(n.clone(), n);
}

#[test]
fn bitwise_operations() {
    folds_to(bin(BinOp::BitAnd, num(8, 12), num(8, 10)), num(8, 8));
    folds_to(bin(BinOp::BitOr, num(8, 12), num(8, 10)), num(8, 14));
    folds_to(bin(BinOp::BitXor, num(8, 12), num(8, 10)), num(8, 6));
    folds_to(un(UnOp::BitNot, num(8, 12)), num(8, 243));
}

#[test]
fn shifts_take_the_width_of_the_first_operand() {
    folds_to(bin(BinOp::Shl, num(8, 3), num(64, 7)), num(8, 128));
    folds_to(bin(BinOp::Shr, num(8, 128), num(64, 7)), num(8, 1));
    folds_to(bin(BinOp::Shl, wide(0, 1), num(64, 300)), wide(1 << 127, 0));
}

#[test]
fn comparisons_and_connectives() {
    folds_to(bin(BinOp::Lt, num(8, 1), num(64, 2)), lit(true));
    folds_to(bin(BinOp::Ge, num(8, 1), num(64, 2)), lit(false));
    folds_to(bin(BinOp::Gt, wide(1, 0), wide(0, u128::MAX)), lit(true));
    folds_to(bin(BinOp::Le, num(8, 2), num(8, 2)), lit(true));
    folds_to(bin(BinOp::Eq, num(8, 2), num(64, 2)), lit(true));
    folds_to(bin(BinOp::Neq, lit(true), lit(false)), lit(true));
    folds_to(bin(BinOp::And, lit(true), lit(false)), lit(false));
    folds_to(bin(BinOp::Or, lit(true), lit(false)), lit(true));
    folds_to(un(UnOp::Not, lit(true)), lit(false));
}

#[test]
fn casts() {
    folds_to(un(UnOp::Cast(8), num(64, 300)), num(8, 44));
    folds_to(un(UnOp::Cast(64), lit(true)), num(64, 1));
}

#[test]
fn bit_operations_on_literals() {
    let cut = IRNode::BitOp(BitOp::Extract { high: 7, low: 4, operand: Box::new(num(8, 0xAB)) });
    folds_to(cut, num(4, 0xA));
    let both = IRNode::BitOp(BitOp::Concat {
        high: Box::new(num(4, 0xA)),
        low: Box::new(num(4, 0xB)),
    });
    folds_to(both, num(8, 0xAB));
    let zero = IRNode::BitOp(BitOp::ZeroExtend { bits: 8, operand: Box::new(num(8, 0x80)) });
    folds_to(zero, num(16, 0x80));
    let sign = IRNode::BitOp(BitOp::SignExtend { bits: 8, operand: Box::new(num(8, 0x80)) });
    folds_to(sign, num(16, 0xFF80));
    let plus = IRNode::BitOp(BitOp::SignExtend { bits: 8, operand: Box::new(num(8, 0x7F)) });
    folds_to(plus, num(16, 0x7F));
}

#[test]
fn branches_on_literals() {
    folds_to(
        cond(bin(BinOp::Lt, num(8, 1), num(8, 2)), var("a"), var("b")),
        var("a"),
    );
    folds_to(cond(lit(false), var("a"), var("b")), var("b"));
}

#[test]
fn operations_on_variables_stay() {
    let n = bin(BinOp::Add, var("x"), num(8, 1));
    folds_to(n.clone(), n);
}

fn simplifies_to(n: IRNode, expected: IRNode) {
    let r = simplify(n);
    assert!(r.same(&expected), "{:?}", r);
}

#[test]
fn negations_are_pushed() {
    simplifies_to(un(UnOp::Not, un(UnOp::Not, var("x"))), var("x"));
    simplifies_to(
        un(UnOp::Not, bin(BinOp::Lt, var("a"), var("b"))),
        bin(BinOp::Ge, var("a"), var("b")),
    );
    simplifies_to(
        un(UnOp::Not, bin(BinOp::Eq, var("a"), var("b"))),
        bin(BinOp::Neq, var("a"), var("b")),
    );
}

#[test]
fn known_operands_are_dropped() {
    simplifies_to(bin(BinOp::And, lit(true), var("x")), var("x"));
    simplifies_to(bin(BinOp::And, var("x"), lit(false)), lit(false));
    simplifies_to(bin(BinOp::Or, lit(false), var("x")), var("x"));
    simplifies_to(bin(BinOp::Or, var("x"), lit(true)), lit(true));
    simplifies_to(
        bin(BinOp::Or, bind(&["y"], var("z"), lit(false)), var("x")),
        var("x"),
    );
    let effect = bin(BinOp::Or, bind(&[], call(3, vec![]), lit(false)), var("x"));
    simplifies_to(effect.clone(), effect);
}

#[test]
fn branches_that_decide_nothing_go() {
    simplifies_to(cond(var("c"), lit(true), lit(false)), var("c"));
    simplifies_to(
        cond(var("c"), lit(false), lit(true)),
        un(UnOp::Not, var("c")),
    );
    simplifies_to(cond(var("c"), var("x"), var("x")), var("x"));
}

#[test]
fn simplification_reaches_everywhere() {
    simplifies_to(
        bind(&["y"], un(UnOp::Not, un(UnOp::Not, var("x"))), call(1, vec![
            cond(var("c"), lit(true), lit(false)),
        ])),
        bind(&["y"], var("x"), call(1, vec![var("c")])),
    );
}

#[test]
fn unread_bindings_of_pure_values_go() {
    let n = bind(&["a"], num(8, 1), bind(&["b"], call(7, vec![]), var("c")));
    let r = remove_dead_code(n);
    assert!(r.same(&bind(&["b"], call(7, vec![]), var("c"))), "{:?}", r);
}

#[test]
fn unread_calls_stay_in_order() {
    let n = bind(
        &["a"],
        call(7, vec![]),
        bind(&["b"], num(8, 1), bind(&["c"], call(8, vec![call(9, vec![])]), var("d"))),
    );
    let r = remove_dead_code(n);
    let kept = bind(
        &["a"],
        call(7, vec![]),
        bind(&["c"], call(8, vec![call(9, vec![])]), var("d")),
    );
    assert!(r.same(&kept), "{:?}", r);
}

#[test]
fn read_bindings_stay() {
    let n = bind(&["a"], num(8, 1), var("a"));
    assert!(remove_dead_code(n.clone()).same(&n));
}

#[test]
fn unread_names_of_tuples_are_blanked() {
    let n = bind(&["a", "b"], call(1, vec![]), var("b"));
    let r = remove_dead_code(n.clone());
    assert!(r.same(&bind(&["_", "b"], call(1, vec![]), var("b"))), "{:?}", r);
    let all = simplify_tuple_patterns(n, &vec!["a".to_string()]);
    assert!(all.same(&bind(&["a", "_"], call(1, vec![]), var("b"))), "{:?}", all);
}

#[test]
fn a_value_with_effects_is_not_known() {
    assert_eq!(evaluates_to_bool(&bind(&["x"], call(0, vec![]), lit(true))), None);
    assert_eq!(evaluates_to_bool(&bind(&["x"], num(8, 1), lit(true))), Some(true));
    assert_eq!(evaluates_to_bool(&bin(BinOp::And, call(0, vec![]), lit(false))), None);
    assert_eq!(evaluates_to_bool(&bin(BinOp::And, lit(false), call(0, vec![]))), Some(false));
    assert_eq!(evaluates_to_bool(&bin(BinOp::Or, var("x"), lit(true))), Some(true));
}

#[test]
fn a_sign_is_extended_where_it_is_set() {
    let extend = |bits: u32, n: IRNode| {
        IRNode::BitOp(BitOp::SignExtend { bits, operand: Box::new(n) })
    };
    assert!(fold_constants(extend(300, num(8, 1))).same(&num(308, 1)));
    assert!(fold_constants(extend(4, wide(1, 2))).same(&IRNode::Const(Const::UInt {
        bits: 260,
        value: Word { hi: 1, lo: 2 },
    })));
    assert!(fold_constants(extend(8, num(8, 0x80))).same(&num(16, 0xff80)));
}

#[test]
fn a_concatenation_is_cut_into_its_parts() {
    let cut = |high: u32, low: u32| {
        let joined = IRNode::BitOp(BitOp::Concat {
            high: Box::new(num(8, 0xab)),
            low: Box::new(num(4, 0xc)),
        });
        fold_constants(IRNode::BitOp(BitOp::Extract { high, low, operand: Box::new(joined) }))
    };
    assert!(cut(11, 4).same(&num(8, 0xab)));
    assert!(cut(3, 0).same(&num(4, 0xc)));
}
