//! Simplification of boolean expressions.

use crate::ir::{BinOp, Const, IRNode, Lit, Node, UnOp};
use crate::traverse::{map_nodes, Rewrite};
use vstd::prelude::*;

verus! {

/// The operator that holds exactly where the given comparison fails.
pub open spec fn negated_comparison(op: BinOp) -> Option<BinOp> {
    match op {
        BinOp::Neq => Some(BinOp::Eq),
        BinOp::Eq => Some(BinOp::Neq),
        BinOp::Lt => Some(BinOp::Ge),
        BinOp::Le => Some(BinOp::Gt),
        BinOp::Gt => Some(BinOp::Le),
        BinOp::Ge => Some(BinOp::Lt),
        _ => None,
    }
}

/// The negation of an expression: a double negation goes, a comparison turns round.
pub open spec fn negated(inner: Node) -> Node {
    match inner {
        Node::UnOp { op: UnOp::Not, operand } => *operand,
        Node::BinOp { op, lhs, rhs } if negated_comparison(op) is Some => Node::BinOp {
            op: negated_comparison(op)->0,
            lhs,
            rhs,
        },
        _ => Node::UnOp { op: UnOp::Not, operand: Box::new(inner) },
    }
}

/// Whether the expression is built from values, operators, bindings and
/// branches alone, so that dropping it loses no effect.
pub open spec fn effect_free(n: Node) -> bool
    decreases n,
{
    match n {
        Node::Const(_) => true,
        Node::Var(_) => true,
        Node::Tuple(elems) => all_effect_free(elems),
        Node::BinOp { lhs, rhs, .. } => effect_free(*lhs) && effect_free(*rhs),
        Node::UnOp { operand, .. } => effect_free(*operand),
        Node::Let { value, body, .. } => effect_free(*value) && effect_free(*body),
        Node::If { cond, then_branch, else_branch } => effect_free(*cond) && effect_free(
            *then_branch,
        ) && effect_free(*else_branch),
        _ => false,
    }
}

/// Whether each of the expressions is free of effects.
pub open spec fn all_effect_free(s: Seq<Node>) -> bool
    decreases s,
{
    forall|i: int| 0 <= i < s.len() ==> effect_free(#[trigger] s[i])
}

/// The boolean that the expression evaluates to whatever its variables hold, where its
/// shape tells it and nothing that is evaluated on the way may have an effect.
pub open spec fn known_bool(n: Node) -> Option<bool>
    decreases n,
{
    match n {
        Node::Const(Lit::Bool(b)) => Some(b),
        Node::Let { value, body, .. } => if effect_free(*value) {
            known_bool(*body)
        } else {
            None
        },
        Node::If { cond, then_branch, else_branch } => {
            let t = known_bool(*then_branch);
            if effect_free(*cond) && t is Some && t == known_bool(*else_branch) {
                t
            } else {
                None
            }
        },
        Node::UnOp { op: UnOp::Not, operand } => match known_bool(*operand) {
            Some(b) => Some(!b),
            None => None,
        },
        Node::BinOp { op: BinOp::And, lhs, rhs } => {
            let l = known_bool(*lhs);
            let r = known_bool(*rhs);
            if l == Some(false) || (r == Some(false) && (l is Some || effect_free(*lhs))) {
                Some(false)
            } else if l == Some(true) && r == Some(true) {
                Some(true)
            } else {
                None
            }
        },
        Node::BinOp { op: BinOp::Or, lhs, rhs } => {
            let l = known_bool(*lhs);
            let r = known_bool(*rhs);
            if l == Some(true) || (r == Some(true) && (l is Some || effect_free(*lhs))) {
                Some(true)
            } else if l == Some(false) && r == Some(false) {
                Some(false)
            } else {
                None
            }
        },
        _ => None,
    }
}

/// A binary operation, with a conjunct or a disjunct of known value dropped.
pub open spec fn simplified_binop(op: BinOp, lhs: Node, rhs: Node) -> Node {
    let l = known_bool(lhs);
    let r = known_bool(rhs);
    if op == BinOp::And {
        if l == Some(true) {
            rhs
        } else if r == Some(true) {
            lhs
        } else if l == Some(false) || r == Some(false) {
            Node::Const(Lit::Bool(false))
        } else {
            Node::BinOp { op, lhs: Box::new(lhs), rhs: Box::new(rhs) }
        }
    } else if op == BinOp::Or {
        if l == Some(true) || r == Some(true) {
            Node::Const(Lit::Bool(true))
        } else if l == Some(false) {
            rhs
        } else if r == Some(false) {
            lhs
        } else {
            Node::BinOp { op, lhs: Box::new(lhs), rhs: Box::new(rhs) }
        }
    } else {
        Node::BinOp { op, lhs: Box::new(lhs), rhs: Box::new(rhs) }
    }
}

/// A branch, dropped where it only repeats its condition or where both sides agree.
pub open spec fn simplified_if(cond: Node, then_branch: Node, else_branch: Node) -> Node {
    if then_branch == Node::Const(Lit::Bool(true)) && else_branch == Node::Const(
        Lit::Bool(false),
    ) {
        cond
    } else if then_branch == Node::Const(Lit::Bool(false)) && else_branch == Node::Const(
        Lit::Bool(true),
    ) {
        Node::UnOp { op: UnOp::Not, operand: Box::new(cond) }
    } else if then_branch == else_branch {
        then_branch
    } else {
        Node::If {
            cond: Box::new(cond),
            then_branch: Box::new(then_branch),
            else_branch: Box::new(else_branch),
        }
    }
}

/// One simplification step.
pub open spec fn simplified(n: Node) -> Node {
    match n {
        Node::UnOp { op: UnOp::Not, operand } => negated(*operand),
        Node::BinOp { op, lhs, rhs } => simplified_binop(op, *lhs, *rhs),
        Node::If { cond, then_branch, else_branch } => simplified_if(
            *cond,
            *then_branch,
            *else_branch,
        ),
        _ => n,
    }
}

/// The expression simplified throughout, the innermost first.
pub open spec fn fully_simplified(n: Node) -> Node {
    n.map(|k: Node| simplified(k))
}

/// The simplification step.
struct Simplifier;

impl Rewrite for Simplifier {
    open spec fn accepts(&self, n: Node) -> bool {
        true
    }

    open spec fn step(&self, n: Node) -> Node {
        simplified(n)
    }

    fn apply(&self, n: IRNode) -> (r: IRNode) {
        simplify_node(n)
    }
}

/// Simplifies the boolean expressions of a tree, the innermost first.
pub fn simplify(ir: IRNode) -> (r: IRNode)
    ensures
        r@ == fully_simplified(ir@),
{
    let t = Simplifier;
    proof {
        ir@.lemma_map_accepts_all(|n: Node| t.step(n), |n: Node| t.accepts(n));
        assert((|n: Node| t.step(n)) =~= (|n: Node| simplified(n)));
    }
    map_nodes(&ir, &t)
}

/// One simplification step.
pub fn simplify_node(node: IRNode) -> (r: IRNode)
    ensures
        r@ == simplified(node@),
{
    match node {
        IRNode::UnOp { op: UnOp::Not, operand } => simplify_not(*operand),
        IRNode::BinOp { op, lhs, rhs } => simplify_binop(op, *lhs, *rhs),
        IRNode::If { cond, then_branch, else_branch } => simplify_if(
            *cond,
            *then_branch,
            *else_branch,
        ),
        other => other,
    }
}

/// The negation of an expression.
pub fn simplify_not(inner: IRNode) -> (r: IRNode)
    ensures
        r@ == negated(inner@),
{
    match inner {
        IRNode::UnOp { op: UnOp::Not, operand } => *operand,
        IRNode::BinOp { op: BinOp::Neq, lhs, rhs } => IRNode::BinOp { op: BinOp::Eq, lhs, rhs },
        IRNode::BinOp { op: BinOp::Eq, lhs, rhs } => IRNode::BinOp { op: BinOp::Neq, lhs, rhs },
        IRNode::BinOp { op: BinOp::Lt, lhs, rhs } => IRNode::BinOp { op: BinOp::Ge, lhs, rhs },
        IRNode::BinOp { op: BinOp::Le, lhs, rhs } => IRNode::BinOp { op: BinOp::Gt, lhs, rhs },
        IRNode::BinOp { op: BinOp::Gt, lhs, rhs } => IRNode::BinOp { op: BinOp::Le, lhs, rhs },
        IRNode::BinOp { op: BinOp::Ge, lhs, rhs } => IRNode::BinOp { op: BinOp::Lt, lhs, rhs },
        other => IRNode::UnOp { op: UnOp::Not, operand: Box::new(other) },
    }
}

/// Whether every expression of a list is free of effects.
fn all_pure(elems: &Vec<IRNode>) -> (r: bool)
    ensures
        r == all_effect_free(IRNode::views(elems@)),
    decreases elems,
{
    let mut i: usize = 0;
    while i < elems.len()
        invariant
            i <= elems.len(),
            forall|j: int| 0 <= j < i ==> effect_free((#[trigger] elems@[j])@),
        decreases elems.len() - i,
    {
        if !is_pure_expr(&elems[i]) {
            assert(!effect_free(IRNode::views(elems@)[i as int]));
            return false;
        }
        i += 1;
    }
    true
}

/// Whether dropping the expression loses no effect.
pub fn is_pure_expr(node: &IRNode) -> (r: bool)
    ensures
        r == effect_free(node@),
    decreases node,
{
    match node {
        IRNode::Const(_) => true,
        IRNode::Var(_) => true,
        IRNode::Tuple(elems) => all_pure(elems),
        IRNode::BinOp { lhs, rhs, .. } => is_pure_expr(lhs) && is_pure_expr(rhs),
        IRNode::UnOp { operand, .. } => is_pure_expr(operand),
        IRNode::Let { value, body, .. } => is_pure_expr(value) && is_pure_expr(body),
        IRNode::If { cond, then_branch, else_branch } => is_pure_expr(cond) && is_pure_expr(
            then_branch,
        ) && is_pure_expr(else_branch),
        _ => false,
    }
}

/// The boolean that the expression evaluates to, where its shape tells it.
pub fn evaluates_to_bool(node: &IRNode) -> (r: Option<bool>)
    ensures
        r == known_bool(node@),
    decreases node,
{
    match node {
        IRNode::Const(Const::Bool(b)) => Some(*b),
        IRNode::Let { value, body, .. } => if is_pure_expr(value) {
            evaluates_to_bool(body)
        } else {
            None
        },
        IRNode::If { cond, then_branch, else_branch } => match (
            evaluates_to_bool(then_branch),
            evaluates_to_bool(else_branch),
        ) {
            (Some(t), Some(e)) => if t == e && is_pure_expr(cond) {
                Some(t)
            } else {
                None
            },
            _ => None,
        },
        IRNode::UnOp { op: UnOp::Not, operand } => match evaluates_to_bool(operand) {
            Some(b) => Some(!b),
            None => None,
        },
        IRNode::BinOp { op: BinOp::And, lhs, rhs } => match evaluates_to_bool(lhs) {
            Some(false) => Some(false),
            Some(true) => match evaluates_to_bool(rhs) {
                Some(true) => Some(true),
                Some(false) => Some(false),
                None => None,
            },
            None => match evaluates_to_bool(rhs) {
                Some(false) => if is_pure_expr(lhs) {
                    Some(false)
                } else {
                    None
                },
                _ => None,
            },
        },
        IRNode::BinOp { op: BinOp::Or, lhs, rhs } => match evaluates_to_bool(lhs) {
            Some(true) => Some(true),
            Some(false) => match evaluates_to_bool(rhs) {
                Some(true) => Some(true),
                Some(false) => Some(false),
                None => None,
            },
            None => match evaluates_to_bool(rhs) {
                Some(true) => if is_pure_expr(lhs) {
                    Some(true)
                } else {
                    None
                },
                _ => None,
            },
        },
        _ => None,
    }
}

/// Simplifies a binary operation.
pub fn simplify_binop(op: BinOp, lhs: IRNode, rhs: IRNode) -> (r: IRNode)
    ensures
        r@ == simplified_binop(op, lhs@, rhs@),
{
    let lhs_bool = evaluates_to_bool(&lhs);
    let rhs_bool = evaluates_to_bool(&rhs);
    match (op, lhs_bool, rhs_bool) {
        (BinOp::And, Some(true), _) => rhs,
        (BinOp::And, _, Some(true)) => lhs,
        (BinOp::And, Some(false), _) => IRNode::Const(Const::Bool(false)),
        (BinOp::And, _, Some(false)) => IRNode::Const(Const::Bool(false)),
        (BinOp::Or, Some(true), _) => IRNode::Const(Const::Bool(true)),
        (BinOp::Or, _, Some(true)) => IRNode::Const(Const::Bool(true)),
        (BinOp::Or, Some(false), _) => rhs,
        (BinOp::Or, _, Some(false)) => lhs,
        _ => IRNode::BinOp { op, lhs: Box::new(lhs), rhs: Box::new(rhs) },
    }
}

/// Simplifies a branch.
pub fn simplify_if(cond: IRNode, then_branch: IRNode, else_branch: IRNode) -> (r: IRNode)
    ensures
        r@ == simplified_if(cond@, then_branch@, else_branch@),
{
    match (&then_branch, &else_branch) {
        (IRNode::Const(Const::Bool(true)), IRNode::Const(Const::Bool(false))) => cond,
        (IRNode::Const(Const::Bool(false)), IRNode::Const(Const::Bool(true))) => IRNode::UnOp {
            op: UnOp::Not,
            operand: Box::new(cond),
        },
        _ => if then_branch.same(&else_branch) {
            then_branch
        } else {
            IRNode::If {
                cond: Box::new(cond),
                then_branch: Box::new(then_branch),
                else_branch: Box::new(else_branch),
            }
        },
    }
}

/// Whether a comparison of two numbers holds.
pub open spec fn compares(op: BinOp, a: int, b: int) -> bool {
    match op {
        BinOp::Eq => a == b,
        BinOp::Neq => a != b,
        BinOp::Lt => a < b,
        BinOp::Le => a <= b,
        BinOp::Gt => a > b,
        BinOp::Ge => a >= b,
        _ => false,
    }
}

/// Whether an expression is true, where `num` gives the numbers that comparisons
/// compare, and `v` the truth of what is neither a literal, a connective, a
/// comparison, a branch nor a binding. A binding is as true as its body.
pub open spec fn truth(n: Node, v: spec_fn(Node) -> bool, num: spec_fn(Node) -> int) -> bool
    decreases n,
{
    match n {
        Node::Const(Lit::Bool(b)) => b,
        Node::UnOp { op: UnOp::Not, operand } => !truth(*operand, v, num),
        Node::BinOp { op: BinOp::And, lhs, rhs } => truth(*lhs, v, num) && truth(*rhs, v, num),
        Node::BinOp { op: BinOp::Or, lhs, rhs } => truth(*lhs, v, num) || truth(*rhs, v, num),
        Node::BinOp { op, lhs, rhs } if negated_comparison(op) is Some => compares(
            op,
            num(*lhs),
            num(*rhs),
        ),
        Node::If { cond, then_branch, else_branch } => if truth(*cond, v, num) {
            truth(*then_branch, v, num)
        } else {
            truth(*else_branch, v, num)
        },
        Node::Let { body, .. } => truth(*body, v, num),
        _ => v(n),
    }
}

/// What is known of an expression is its truth.
proof fn lemma_known_is_truth(n: Node, v: spec_fn(Node) -> bool, num: spec_fn(Node) -> int)
    ensures
        known_bool(n) is Some ==> truth(n, v, num) == known_bool(n)->0,
    decreases n,
{
    match n {
        Node::Let { body, .. } => {
            lemma_known_is_truth(*body, v, num);
        },
        Node::If { then_branch, else_branch, .. } => {
            lemma_known_is_truth(*then_branch, v, num);
            lemma_known_is_truth(*else_branch, v, num);
        },
        Node::UnOp { operand, .. } => {
            lemma_known_is_truth(*operand, v, num);
        },
        Node::BinOp { lhs, rhs, .. } => {
            lemma_known_is_truth(*lhs, v, num);
            lemma_known_is_truth(*rhs, v, num);
        },
        _ => {},
    }
}

/// A simplification step keeps the truth of an expression.
pub proof fn law_simplified_keeps_truth(
    n: Node,
    v: spec_fn(Node) -> bool,
    num: spec_fn(Node) -> int,
)
    ensures
        truth(simplified(n), v, num) == truth(n, v, num),
{
    reveal_with_fuel(truth, 3);
    match n {
        Node::BinOp { lhs, rhs, .. } => {
            lemma_known_is_truth(*lhs, v, num);
            lemma_known_is_truth(*rhs, v, num);
        },
        _ => {},
    }
}

/// Simplifying throughout keeps the truth of an expression, where what the truth is
/// read from is worth the same once simplified.
pub proof fn law_simplify_keeps_truth(
    n: Node,
    v: spec_fn(Node) -> bool,
    num: spec_fn(Node) -> int,
)
    requires
        forall|m: Node| v(#[trigger] fully_simplified(m)) == v(m),
        forall|m: Node| num(#[trigger] fully_simplified(m)) == num(m),
    ensures
        truth(fully_simplified(n), v, num) == truth(n, v, num),
    decreases n,
{
    let f = |k: Node| simplified(k);
    n.lemma_kids_decrease();
    let ms = n.mapped_kids(f);
    let r = n.with_kids(ms);
    law_simplified_keeps_truth(r, v, num);
    assert(fully_simplified(n) == simplified(r));
    match n {
        Node::UnOp { op: UnOp::Not, operand } => {
            assert(n.kids()[0] == *operand);
            law_simplify_keeps_truth(*operand, v, num);
        },
        Node::BinOp { op, lhs, rhs } => {
            assert(n.kids()[0] == *lhs && n.kids()[1] == *rhs);
            assert(ms[0] == fully_simplified(*lhs) && ms[1] == fully_simplified(*rhs));
            law_simplify_keeps_truth(*lhs, v, num);
            law_simplify_keeps_truth(*rhs, v, num);
            if op != BinOp::And && op != BinOp::Or && negated_comparison(op) is None {
                assert(simplified(r) == r);
                assert(v(fully_simplified(n)) == v(n));
            }
        },
        Node::If { cond, then_branch, else_branch } => {
            assert(n.kids()[0] == *cond && n.kids()[1] == *then_branch && n.kids()[2]
                == *else_branch);
            assert(ms[0] == fully_simplified(*cond) && ms[1] == fully_simplified(*then_branch) && ms[2]
                == fully_simplified(*else_branch));
            law_simplify_keeps_truth(*cond, v, num);
            law_simplify_keeps_truth(*then_branch, v, num);
            law_simplify_keeps_truth(*else_branch, v, num);
        },
        Node::Let { value, body, .. } => {
            assert(n.kids()[1] == *body);
            assert(ms[1] == fully_simplified(*body));
            law_simplify_keeps_truth(*body, v, num);
        },
        _ => {
            assert(v(fully_simplified(n)) == v(n));
        },
    }
}

} // verus!
