//! Turning boolean tails and branches into propositions.

use crate::ir::{BinOp, IRNode, Node};
use crate::program::Prog;
use crate::scope::{Vars, VariableRegistry};
use crate::types::{FunctionID, Ty, Type};
use vstd::prelude::*;

verus! {

/// The expression with each tail of its branches as a proposition.
pub open spec fn tails_as_props(n: Node) -> Node
    decreases n,
{
    match n {
        Node::Let { pattern, value, body } => Node::Let {
            pattern,
            value,
            body: Box::new(tails_as_props(*body)),
        },
        Node::If { cond, then_branch, else_branch } => Node::If {
            cond,
            then_branch: Box::new(tails_as_props(*then_branch)),
            else_branch: Box::new(tails_as_props(*else_branch)),
        },
        _ => Node::ToProp(Box::new(n)),
    }
}

/// Turns each tail of the branches of an expression into a proposition.
fn wrap_branch_in_to_prop(node: IRNode) -> (r: IRNode)
    ensures
        r@ == tails_as_props(node@),
    decreases node,
{
    match node {
        IRNode::Let { pattern, value, body } => IRNode::Let {
            pattern,
            value,
            body: Box::new(wrap_branch_in_to_prop(*body)),
        },
        IRNode::If { cond, then_branch, else_branch } => IRNode::If {
            cond,
            then_branch: Box::new(wrap_branch_in_to_prop(*then_branch)),
            else_branch: Box::new(wrap_branch_in_to_prop(*else_branch)),
        },
        other => IRNode::ToProp(Box::new(other)),
    }
}

/// Whether the type is that of booleans.
fn is_bool_type(t: &Option<Type>) -> (r: bool)
    ensures
        r == (crate::scope::optional_ty(*t) == Some(Ty::Bool)),
{
    match t {
        Some(Type::Bool) => true,
        _ => false,
    }
}

/// Whether the type is that of propositions.
fn is_prop_type(t: &Option<Type>) -> (r: bool)
    ensures
        r == (crate::scope::optional_ty(*t) == Some(Ty::Prop)),
{
    match t {
        Some(Type::Prop) => true,
        _ => false,
    }
}

/// A branch with one boolean side and one side that is a proposition, with the
/// boolean side as a proposition.
pub open spec fn evened_branch(cond: Node, t: Node, e: Node, vars: Vars, p: Prog) -> Node {
    let tt = crate::scope::type_of(t, vars, p);
    let et = crate::scope::type_of(e, vars, p);
    Node::If {
        cond: Box::new(cond),
        then_branch: Box::new(
            if tt == Some(Ty::Bool) && et == Some(Ty::Prop) {
                tails_as_props(t)
            } else {
                t
            },
        ),
        else_branch: Box::new(
            if tt == Some(Ty::Prop) && et == Some(Ty::Bool) {
                tails_as_props(e)
            } else {
                e
            },
        ),
    }
}

/// The expression with its branches along the control flow evened out, and the
/// scope after it.
pub open spec fn branches_evened(n: Node, vars: Vars, p: Prog) -> (Node, Vars)
    decreases n,
{
    match n {
        Node::Let { pattern, value, body } => {
            let (v, vars1) = branches_evened(*value, vars, p);
            let vars2 = crate::scope::bound(vars1, pattern, crate::scope::type_of(v, vars1, p));
            let (b, vars3) = branches_evened(*body, vars2, p);
            (Node::Let { pattern, value: Box::new(v), body: Box::new(b) }, vars3)
        },
        Node::If { cond, then_branch, else_branch } => {
            let (c, vars1) = branches_evened(*cond, vars, p);
            let (t, vars2) = branches_evened(*then_branch, vars1, p);
            let (e, vars3) = branches_evened(*else_branch, vars2, p);
            (evened_branch(c, t, e, vars3, p), vars3)
        },
        _ => (n, vars),
    }
}

/// Evens out the branches along the control flow one side of which is boolean and
/// the other a proposition.
pub fn fix_mixed_if_branches(node: IRNode, reg: &mut VariableRegistry) -> (r: IRNode)
    ensures
        (r@, final(reg)@) == branches_evened(node@, old(reg)@, old(reg).program@),
        *final(reg).program == *old(reg).program,
    decreases node,
{
    match node {
        IRNode::Let { pattern, value, body } => {
            let v = fix_mixed_if_branches(*value, reg);
            let t = v.get_type(reg);
            reg.register_pattern(&pattern, t);
            let b = fix_mixed_if_branches(*body, reg);
            IRNode::Let { pattern, value: Box::new(v), body: Box::new(b) }
        },
        IRNode::If { cond, then_branch, else_branch } => {
            let c = fix_mixed_if_branches(*cond, reg);
            let t = fix_mixed_if_branches(*then_branch, reg);
            let e = fix_mixed_if_branches(*else_branch, reg);
            let tt = t.get_type(reg);
            let et = e.get_type(reg);
            let then_first = is_bool_type(&tt) && is_prop_type(&et);
            let else_first = is_prop_type(&tt) && is_bool_type(&et);
            let new_then = if then_first {
                wrap_branch_in_to_prop(t)
            } else {
                t
            };
            let new_else = if else_first {
                wrap_branch_in_to_prop(e)
            } else {
                e
            };
            IRNode::If {
                cond: Box::new(c),
                then_branch: Box::new(new_then),
                else_branch: Box::new(new_else),
            }
        },
        other => other,
    }
}

/// Whether a function of the program returns a proposition.
pub open spec fn returns_prop(p: Prog, id: FunctionID) -> bool {
    p.has(id) && p.func(id).signature.return_type == Ty::Prop
}

/// Whether a proposition stands in the expression where a boolean chain or a
/// branch has its parts.
pub open spec fn has_prop(n: Node, vars: Vars, p: Prog) -> bool
    decreases n,
{
    match n {
        Node::BinOp { op, lhs, rhs } => (op == BinOp::And || op == BinOp::Or) && (has_prop(
            *lhs,
            vars,
            p,
        ) || has_prop(*rhs, vars, p)),
        Node::Let { value, body, .. } => has_prop(*value, vars, p) || has_prop(*body, vars, p),
        Node::If { then_branch, else_branch, .. } => has_prop(*then_branch, vars, p) || has_prop(
            *else_branch,
            vars,
            p,
        ),
        Node::Call { function, .. } => returns_prop(p, function),
        Node::ToProp(_) => true,
        Node::Var(x) => crate::scope::var_type(vars, x) == Some(Ty::Prop),
        _ => false,
    }
}

/// Whether a proposition stands in the expression where a boolean chain or a
/// branch has its parts.
fn contains_prop(node: &IRNode, reg: &VariableRegistry) -> (r: bool)
    ensures
        r == has_prop(node@, reg@, reg.program@),
    decreases node,
{
    match node {
        IRNode::BinOp { op, lhs, rhs } => {
            let chain = match op {
                BinOp::And | BinOp::Or => true,
                _ => false,
            };
            chain && (contains_prop(lhs, reg) || contains_prop(rhs, reg))
        },
        IRNode::Let { value, body, .. } => contains_prop(value, reg) || contains_prop(body, reg),
        IRNode::If { then_branch, else_branch, .. } => contains_prop(then_branch, reg)
            || contains_prop(else_branch, reg),
        IRNode::Call { function, .. } => match reg.program.function_slot(*function) {
            Some(k) => match &reg.program.functions[k].1.signature.return_type {
                Type::Prop => true,
                _ => false,
            },
            None => false,
        },
        IRNode::ToProp(_) => true,
        IRNode::Var(x) => {
            let t = reg.get_type(x);
            is_prop_type(&t)
        },
        _ => false,
    }
}

/// The expression as a proposition: itself, if it is one.
pub open spec fn leaf_as_prop(n: Node, vars: Vars, p: Prog) -> Node {
    if crate::scope::type_of(n, vars, p) == Some(Ty::Prop) {
        n
    } else {
        Node::ToProp(Box::new(n))
    }
}

/// Whether the expression is a conjunction.
pub open spec fn is_conjunction(n: Node) -> bool {
    n matches Node::BinOp { op: BinOp::And, .. }
}

/// The expression as a proposition; a chain that is not boolean by its parts.
pub open spec fn as_prop(n: Node, vars: Vars, p: Prog) -> Node
    decreases n, 1nat,
{
    let t = crate::scope::type_of(n, vars, p);
    if t != Some(Ty::Prop) && t != Some(Ty::Bool) && (is_conjunction(n) || n is Let) {
        chain_as_prop(n, vars, p).0
    } else {
        leaf_as_prop(n, vars, p)
    }
}

/// The parts of a conjunction, or of what a binding ends in, as propositions; and
/// the scope after it.
pub open spec fn chain_as_prop(n: Node, vars: Vars, p: Prog) -> (Node, Vars)
    decreases n, 0nat,
{
    match n {
        Node::BinOp { op: BinOp::And, lhs, rhs } => (
            Node::BinOp {
                op: BinOp::And,
                lhs: Box::new(as_prop(*lhs, vars, p)),
                rhs: Box::new(as_prop(*rhs, vars, p)),
            },
            vars,
        ),
        Node::Let { pattern, value, body } => {
            let (v, vars1) = if has_prop(*value, vars, p) {
                chain_as_prop(*value, vars, p)
            } else {
                (*value, vars)
            };
            let vars2 = crate::scope::bound(vars1, pattern, crate::scope::type_of(v, vars1, p));
            let (b, vars3) = chain_as_prop(*body, vars2, p);
            (Node::Let { pattern, value: Box::new(v), body: Box::new(b) }, vars3)
        },
        _ => (leaf_as_prop(n, vars, p), vars),
    }
}

/// The expression as a proposition: itself, if it is one.
fn leaf_to_prop(node: IRNode, reg: &VariableRegistry) -> (r: IRNode)
    ensures
        r@ == leaf_as_prop(node@, reg@, reg.program@),
{
    let t = node.get_type(reg);
    if is_prop_type(&t) {
        node
    } else {
        IRNode::ToProp(Box::new(node))
    }
}

/// Turns an expression into a proposition.
fn to_prop_expr(node: IRNode, reg: &VariableRegistry) -> (r: IRNode)
    ensures
        r@ == as_prop(node@, reg@, reg.program@),
    decreases node, 1nat,
{
    let t = node.get_type(reg);
    let chain = match &node {
        IRNode::BinOp { op: BinOp::And, .. } => true,
        IRNode::Let { .. } => true,
        _ => false,
    };
    if !is_prop_type(&t) && !is_bool_type(&t) && chain {
        let mut inner = reg.copy();
        bool_chain_to_prop(node, &mut inner)
    } else {
        leaf_to_prop(node, reg)
    }
}

/// Turns the parts of a conjunction, or of what a binding ends in, into
/// propositions.
fn bool_chain_to_prop(node: IRNode, reg: &mut VariableRegistry) -> (r: IRNode)
    ensures
        (r@, final(reg)@) == chain_as_prop(node@, old(reg)@, old(reg).program@),
        *final(reg).program == *old(reg).program,
    decreases node, 0nat,
{
    match node {
        IRNode::BinOp { op: BinOp::And, lhs, rhs } => {
            let l = to_prop_expr(*lhs, reg);
            let r = to_prop_expr(*rhs, reg);
            IRNode::BinOp { op: BinOp::And, lhs: Box::new(l), rhs: Box::new(r) }
        },
        IRNode::Let { pattern, value, body } => {
            let has = contains_prop(&value, reg);
            let v = if has {
                bool_chain_to_prop(*value, reg)
            } else {
                *value
            };
            let t = v.get_type(reg);
            reg.register_pattern(&pattern, t);
            let b = bool_chain_to_prop(*body, reg);
            IRNode::Let { pattern, value: Box::new(v), body: Box::new(b) }
        },
        other => leaf_to_prop(other, reg),
    }
}

/// The expression with its boolean tails as propositions, and the scope after it.
/// A binding whose value holds a proposition has the parts of the value as
/// propositions.
pub open spec fn tails_lifted(n: Node, vars: Vars, p: Prog) -> (Node, Vars)
    decreases n,
{
    match n {
        Node::Let { pattern, value, body } => {
            let (v, vars1) = if has_prop(*value, vars, p) {
                chain_as_prop(*value, vars, p)
            } else {
                (*value, vars)
            };
            let vars2 = crate::scope::bound(vars1, pattern, crate::scope::type_of(v, vars1, p));
            let (b, vars3) = tails_lifted(*body, vars2, p);
            (Node::Let { pattern, value: Box::new(v), body: Box::new(b) }, vars3)
        },
        Node::If { cond, then_branch, else_branch } => {
            let (t, vars1) = tails_lifted(*then_branch, vars, p);
            let (e, vars2) = tails_lifted(*else_branch, vars1, p);
            (Node::If { cond, then_branch: Box::new(t), else_branch: Box::new(e) }, vars2)
        },
        _ => (
            if crate::scope::type_of(n, vars, p) == Some(Ty::Bool) {
                Node::ToProp(Box::new(n))
            } else {
                n
            },
            vars,
        ),
    }
}

/// The expression with its branches evened out and its boolean tails as propositions,
/// and the scope after it.
pub open spec fn lifted(n: Node, vars: Vars, p: Prog) -> (Node, Vars) {
    tails_lifted(branches_evened(n, vars, p).0, vars, p)
}

/// Turns the boolean tails of an expression into propositions.
fn lift_tail(node: IRNode, reg: &mut VariableRegistry) -> (r: IRNode)
    ensures
        (r@, final(reg)@) == tails_lifted(node@, old(reg)@, old(reg).program@),
        *final(reg).program == *old(reg).program,
    decreases node,
{
    match node {
        IRNode::Let { pattern, value, body } => {
            let has = contains_prop(&value, reg);
            let v = if has {
                bool_chain_to_prop(*value, reg)
            } else {
                *value
            };
            let t = v.get_type(reg);
            reg.register_pattern(&pattern, t);
            let b = lift_tail(*body, reg);
            IRNode::Let { pattern, value: Box::new(v), body: Box::new(b) }
        },
        IRNode::If { cond, then_branch, else_branch } => {
            let t = lift_tail(*then_branch, reg);
            let e = lift_tail(*else_branch, reg);
            IRNode::If { cond, then_branch: Box::new(t), else_branch: Box::new(e) }
        },
        other => {
            let t = other.get_type(reg);
            if is_bool_type(&t) {
                IRNode::ToProp(Box::new(other))
            } else {
                other
            }
        },
    }
}

/// Evens out the branches along the control flow one side of which is boolean and the
/// other a proposition, and turns the boolean tails of the expression into propositions.
pub fn lift_bool_tails_to_prop(node: IRNode, reg: &mut VariableRegistry) -> (r: IRNode)
    ensures
        (r@, final(reg)@) == lifted(node@, old(reg)@, old(reg).program@),
        *final(reg).program == *old(reg).program,
{
    let mut inner = reg.copy();
    let even = fix_mixed_if_branches(node, &mut inner);
    lift_tail(even, reg)
}

/// Whether no tail of the branches of an expression is boolean in its own scope.
pub open spec fn no_bool_tail(n: Node, vars: Vars, p: Prog) -> bool
    decreases n,
{
    match n {
        Node::Let { pattern, value, body } => no_bool_tail(
            *body,
            crate::scope::bound(vars, pattern, crate::scope::type_of(*value, vars, p)),
            p,
        ),
        Node::If { then_branch, else_branch, .. } => no_bool_tail(*then_branch, vars, p)
            && no_bool_tail(*else_branch, vars, p),
        _ => crate::scope::type_of(n, vars, p) != Some(Ty::Bool),
    }
}

/// Turning the sides of a branch into propositions gives both sides the type of
/// propositions.
pub proof fn law_tails_are_props(n: Node, vars: Vars, p: Prog)
    ensures
        no_bool_tail(tails_as_props(n), vars, p),
        crate::scope::type_of(tails_as_props(n), vars, p) == Some(Ty::Prop),
    decreases n,
{
    match n {
        Node::Let { pattern, value, body } => {
            law_tails_are_props(
                *body,
                crate::scope::bound(vars, pattern, crate::scope::type_of(*value, vars, p)),
                p,
            );
        },
        Node::If { cond, then_branch, else_branch } => {
            law_tails_are_props(*then_branch, vars, p);
            law_tails_are_props(*else_branch, vars, p);
        },
        _ => {},
    }
}

/// Tails as propositions have the value of the tails.
proof fn lemma_tails_as_props_mean(
    n: Node,
    env: crate::meaning::Env,
    m: crate::meaning::Model,
)
    ensures
        crate::meaning::eval(tails_as_props(n), env, m) == crate::meaning::eval(n, env, m),
    decreases n,
{
    match n {
        Node::Let { pattern, value, body } => {
            let inner = crate::meaning::bound(
                env,
                pattern,
                crate::meaning::eval(*value, env, m),
            );
            lemma_tails_as_props_mean(*body, inner, m);
        },
        Node::If { cond, then_branch, else_branch } => {
            lemma_tails_as_props_mean(*then_branch, env, m);
            lemma_tails_as_props_mean(*else_branch, env, m);
        },
        _ => {},
    }
}

/// Evened branches have the value of the branches.
proof fn lemma_evened_mean(
    n: Node,
    vars: Vars,
    p: Prog,
    env: crate::meaning::Env,
    m: crate::meaning::Model,
)
    ensures
        crate::meaning::eval(branches_evened(n, vars, p).0, env, m) == crate::meaning::eval(
            n,
            env,
            m,
        ),
    decreases n,
{
    match n {
        Node::Let { pattern, value, body } => {
            let (v, vars1) = branches_evened(*value, vars, p);
            let vars2 = crate::scope::bound(vars1, pattern, crate::scope::type_of(v, vars1, p));
            lemma_evened_mean(*value, vars, p, env, m);
            let inner = crate::meaning::bound(
                env,
                pattern,
                crate::meaning::eval(*value, env, m),
            );
            lemma_evened_mean(*body, vars2, p, inner, m);
        },
        Node::If { cond, then_branch, else_branch } => {
            let (c, vars1) = branches_evened(*cond, vars, p);
            let (t, vars2) = branches_evened(*then_branch, vars1, p);
            let (e, vars3) = branches_evened(*else_branch, vars2, p);
            lemma_evened_mean(*cond, vars, p, env, m);
            lemma_evened_mean(*then_branch, vars1, p, env, m);
            lemma_evened_mean(*else_branch, vars2, p, env, m);
            lemma_tails_as_props_mean(t, env, m);
            lemma_tails_as_props_mean(e, env, m);
        },
        _ => {},
    }
}

/// A proposition has the value of the expression.
proof fn lemma_as_prop_means(
    n: Node,
    vars: Vars,
    p: Prog,
    env: crate::meaning::Env,
    m: crate::meaning::Model,
)
    ensures
        crate::meaning::eval(as_prop(n, vars, p), env, m) == crate::meaning::eval(n, env, m),
    decreases n, 1nat,
{
    lemma_chain_as_prop_means(n, vars, p, env, m);
}

/// A chain of propositions has the value of the chain.
proof fn lemma_chain_as_prop_means(
    n: Node,
    vars: Vars,
    p: Prog,
    env: crate::meaning::Env,
    m: crate::meaning::Model,
)
    ensures
        crate::meaning::eval(chain_as_prop(n, vars, p).0, env, m) == crate::meaning::eval(
            n,
            env,
            m,
        ),
    decreases n, 0nat,
{
    match n {
        Node::BinOp { op: BinOp::And, lhs, rhs } => {
            lemma_as_prop_means(*lhs, vars, p, env, m);
            lemma_as_prop_means(*rhs, vars, p, env, m);
        },
        Node::Let { pattern, value, body } => {
            let (v, vars1) = if has_prop(*value, vars, p) {
                chain_as_prop(*value, vars, p)
            } else {
                (*value, vars)
            };
            let vars2 = crate::scope::bound(vars1, pattern, crate::scope::type_of(v, vars1, p));
            lemma_chain_as_prop_means(*value, vars, p, env, m);
            let inner = crate::meaning::bound(
                env,
                pattern,
                crate::meaning::eval(*value, env, m),
            );
            lemma_chain_as_prop_means(*body, vars2, p, inner, m);
        },
        _ => {},
    }
}

/// Lifted tails have the value of the tails.
proof fn lemma_tails_lifted_mean(
    n: Node,
    vars: Vars,
    p: Prog,
    env: crate::meaning::Env,
    m: crate::meaning::Model,
)
    ensures
        crate::meaning::eval(tails_lifted(n, vars, p).0, env, m) == crate::meaning::eval(
            n,
            env,
            m,
        ),
    decreases n,
{
    match n {
        Node::Let { pattern, value, body } => {
            let (v, vars1) = if has_prop(*value, vars, p) {
                chain_as_prop(*value, vars, p)
            } else {
                (*value, vars)
            };
            let vars2 = crate::scope::bound(vars1, pattern, crate::scope::type_of(v, vars1, p));
            lemma_chain_as_prop_means(*value, vars, p, env, m);
            let inner = crate::meaning::bound(
                env,
                pattern,
                crate::meaning::eval(*value, env, m),
            );
            lemma_tails_lifted_mean(*body, vars2, p, inner, m);
        },
        Node::If { cond, then_branch, else_branch } => {
            let vars1 = tails_lifted(*then_branch, vars, p).1;
            lemma_tails_lifted_mean(*then_branch, vars, p, env, m);
            lemma_tails_lifted_mean(*else_branch, vars1, p, env, m);
        },
        _ => {},
    }
}

/// An expression whose boolean tails are lifted to propositions has the value that it had.
pub proof fn law_lifting_keeps_the_value(
    n: Node,
    vars: Vars,
    p: Prog,
    env: crate::meaning::Env,
    m: crate::meaning::Model,
)
    ensures
        crate::meaning::eval(lifted(n, vars, p).0, env, m) == crate::meaning::eval(n, env, m),
{
    lemma_evened_mean(n, vars, p, env, m);
    lemma_tails_lifted_mean(branches_evened(n, vars, p).0, vars, p, env, m);
}

} // verus!
