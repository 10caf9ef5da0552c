//! Folding of early returns, and the shaping of abort conditions.

use crate::ir::{BinOp, Const, IRNode, Lit, Node, UnOp};
use crate::parts::{map_within, size_at_most, Spine, Tails, Within};
use crate::program::{Func, Prog, Program};
use crate::text::has_text;
use crate::traverse::{any_node, contains_id, contains_name, map_nodes, name_is, uses_name, Rewrite, Test};
use crate::types::{FunctionID, Name, TempId};
use vstd::prelude::*;

verus! {

/// Whether the expression is the unit value.
pub open spec fn is_unit_value(n: Node) -> bool {
    n matches Node::Tuple(elems) && elems.len() == 0
}

/// Whether the expression is the unit value.
pub fn is_empty_tuple(n: &IRNode) -> (r: bool)
    ensures
        r == is_unit_value(n@),
{
    match n {
        IRNode::Tuple(elems) => {
            assert(IRNode::views(elems@).len() == elems@.len());
            elems.len() == 0
        },
        _ => false,
    }
}

/// Whether the expression evaluates to a call.
pub open spec fn ends_in_call(n: Node) -> bool
    decreases n,
{
    match n {
        Node::Call { .. } => true,
        Node::Let { body, .. } => ends_in_call(*body),
        Node::If { then_branch, else_branch, .. } => ends_in_call(*then_branch) && ends_in_call(
            *else_branch,
        ),
        _ => false,
    }
}

/// Whether the expression evaluates to a call.
fn is_tail_call(node: &IRNode) -> (r: bool)
    ensures
        r == ends_in_call(node@),
    decreases node,
{
    match node {
        IRNode::Call { .. } => true,
        IRNode::Let { body, .. } => is_tail_call(body),
        IRNode::If { then_branch, else_branch, .. } => is_tail_call(then_branch) && is_tail_call(
            else_branch,
        ),
        _ => false,
    }
}

/// A sequence whose first part never falls through, without its second part.
pub open spec fn without_unreachable(n: Node) -> Node {
    match n {
        Node::Let { pattern, value, .. } => match *value {
            Node::If { then_branch, else_branch, .. } if pattern.len() == 0 && ends_in_call(
                *then_branch,
            ) && ends_in_call(*else_branch) => *value,
            _ => n,
        },
        _ => n,
    }
}

/// The step that drops what is not reached.
struct DropUnreachable;

impl Rewrite for DropUnreachable {
    closed spec fn accepts(&self, n: Node) -> bool {
        true
    }

    closed spec fn step(&self, n: Node) -> Node {
        without_unreachable(n)
    }

    fn apply(&self, n: IRNode) -> (r: IRNode) {
        proof {
            reveal_with_fuel(IRNode::view, 2);
        }
        match n {
            IRNode::Let { pattern, value, body } => {
                let unreachable = match &*value {
                    IRNode::If { then_branch, else_branch, .. } => pattern.len() == 0
                        && is_tail_call(then_branch) && is_tail_call(else_branch),
                    _ => false,
                };
                if unreachable {
                    *value
                } else {
                    IRNode::Let { pattern, value, body }
                }
            },
            other => other,
        }
    }
}

/// Drops what stands behind a branch that ends in a call on both sides.
pub fn strip_unreachable_after_tail_calls(node: IRNode) -> (r: IRNode)
    ensures
        r@ == node@.map_in(
            |n: Node, i: int| crate::parts::on_spine(n, i),
            |n: Node| without_unreachable(n),
        ),
{
    let t = DropUnreachable;
    let w = Spine;
    proof {
        assert((|n: Node| t.step(n)) =~= (|n: Node| without_unreachable(n)));
        assert((|n: Node, i: int| Within::enters(&w, n, i)) =~= (|n: Node, i: int|
            crate::parts::on_spine(n, i)));
    }
    map_within(&node, &w, &t)
}

/// Whether the expression falls through: its tail is the unit value or a field
/// update.
pub open spec fn falls_through(n: Node) -> bool
    decreases n,
{
    match n {
        Node::Tuple(elems) => elems.len() == 0,
        Node::Let { body, .. } => falls_through(*body),
        Node::UpdateField { .. } => true,
        _ => false,
    }
}

/// Whether the expression falls through.
fn tail_is_unit(node: &IRNode) -> (r: bool)
    ensures
        r == falls_through(node@),
    decreases node,
{
    match node {
        IRNode::Tuple(elems) => {
            assert(IRNode::views(elems@).len() == elems@.len());
            elems.len() == 0
        },
        IRNode::Let { body, .. } => tail_is_unit(body),
        IRNode::UpdateField { .. } => true,
        _ => false,
    }
}

/// A branch followed by a continuation: what the branch's bindings end in is bound to
/// no name before the continuation.
pub open spec fn continued(branch: Node, continuation: Node) -> Node
    decreases branch,
{
    match branch {
        Node::Let { pattern, value, body } => Node::Let {
            pattern,
            value,
            body: Box::new(continued(*body, continuation)),
        },
        _ => Node::Let {
            pattern: Seq::empty(),
            value: Box::new(branch),
            body: Box::new(continuation),
        },
    }
}

/// Puts a continuation at the end of a branch's bindings.
pub fn append_continuation(branch: &IRNode, continuation: &IRNode) -> (r: IRNode)
    ensures
        r@ == continued(branch@, continuation@),
    decreases branch,
{
    match branch {
        IRNode::Let { pattern, value, body } => IRNode::Let {
            pattern: crate::ir::clone_names(pattern),
            value: Box::new((**value).clone()),
            body: Box::new(append_continuation(body, continuation)),
        },
        _ => {
            let r = IRNode::Let {
                pattern: Vec::new(),
                value: Box::new(branch.clone()),
                body: Box::new(continuation.clone()),
            };
            assert(crate::ir::names(r->Let_pattern@) =~= Seq::empty());
            r
        },
    }
}

/// Whether the expression binds a variable.
pub open spec fn is_binding(n: Node) -> bool {
    n matches Node::Let { pattern, .. } && pattern.len() > 0
}

/// Whether a variable is bound somewhere in the expression.
pub open spec fn has_bindings(n: Node) -> bool {
    n.any(|m: Node| is_binding(m))
}

/// The test for a binding of a variable.
struct IsBinding;

impl Test for IsBinding {
    closed spec fn holds(&self, n: Node) -> bool {
        is_binding(n)
    }

    fn check(&self, n: &IRNode) -> (r: bool) {
        match n {
            IRNode::Let { pattern, .. } => pattern.len() > 0,
            _ => false,
        }
    }
}

/// Whether a variable is bound somewhere in the expression.
fn contains_bindings(node: &IRNode) -> (r: bool)
    ensures
        r == has_bindings(node@),
{
    let t = IsBinding;
    proof {
        assert((|m: Node| t.holds(m)) =~= (|m: Node| is_binding(m)));
    }
    any_node(node, &t)
}

/// Whether the expression is a branch that does nothing: the unit value or an
/// abort behind bindings of no variable, with no variable bound anywhere inside.
pub open spec fn does_nothing(n: Node) -> bool
    decreases n,
{
    match n {
        Node::Tuple(elems) => elems.len() == 0,
        Node::Abort { .. } => !has_bindings(n),
        Node::Let { pattern, value, body } => pattern.len() == 0 && !has_bindings(*value)
            && does_nothing(*body),
        _ => false,
    }
}

/// Whether the expression is a branch that does nothing.
fn is_unit(node: &IRNode) -> (r: bool)
    ensures
        r == does_nothing(node@),
    decreases node,
{
    match node {
        IRNode::Tuple(elems) => {
            assert(IRNode::views(elems@).len() == elems@.len());
            elems.len() == 0
        },
        IRNode::Abort { .. } => !contains_bindings(node),
        IRNode::Let { pattern, value, body } => pattern.len() == 0 && !contains_bindings(value)
            && is_unit(body),
        _ => false,
    }
}

/// A sequence of a branch without an else part and a rest, as one branch. Where
/// the branch falls through, the rest follows it too, unless the rest has more
/// than 64 subexpressions.
pub open spec fn folded_return(n: Node) -> Node {
    match n {
        Node::Let { pattern, value, body } => match *value {
            Node::If { cond, then_branch, else_branch } if pattern.len() == 0 && does_nothing(
                *else_branch,
            ) && !does_nothing(*body) => if falls_through(*then_branch) {
                if body.size() <= 64 {
                    Node::If {
                        cond,
                        then_branch: Box::new(continued(*then_branch, *body)),
                        else_branch: body,
                    }
                } else {
                    n
                }
            } else {
                Node::If { cond, then_branch, else_branch: body }
            },
            _ => n,
        },
        _ => n,
    }
}

/// The step that folds an early return.
struct FoldReturn;

impl Rewrite for FoldReturn {
    closed spec fn accepts(&self, n: Node) -> bool {
        true
    }

    closed spec fn step(&self, n: Node) -> Node {
        folded_return(n)
    }

    fn apply(&self, n: IRNode) -> (r: IRNode) {
        proof {
            reveal_with_fuel(IRNode::view, 2);
        }
        match n {
            IRNode::Let { pattern, value, body } => {
                let guard = match &*value {
                    IRNode::If { else_branch, .. } => pattern.len() == 0 && is_unit(else_branch)
                        && !is_unit(&body),
                    _ => false,
                };
                if !guard {
                    return IRNode::Let { pattern, value, body };
                }
                match *value {
                    IRNode::If { cond, then_branch, else_branch } => {
                        if tail_is_unit(&then_branch) {
                            if size_at_most(&body, 64) {
                                let first = append_continuation(&then_branch, &body);
                                IRNode::If {
                                    cond,
                                    then_branch: Box::new(first),
                                    else_branch: body,
                                }
                            } else {
                                let v = IRNode::If { cond, then_branch, else_branch };
                                IRNode::Let { pattern, value: Box::new(v), body }
                            }
                        } else {
                            IRNode::If { cond, then_branch, else_branch: body }
                        }
                    },
                    other => IRNode::Let { pattern, value: Box::new(other), body },
                }
            },
            other => other,
        }
    }
}

/// The expression with its early returns folded.
pub open spec fn returns_folded(n: Node) -> Node {
    n.map_in(|m: Node, i: int| crate::parts::on_spine(m, i), |m: Node| folded_return(m))
}

/// Folds the early returns along the control flow.
pub fn fold_early_returns_inner(node: IRNode) -> (r: IRNode)
    ensures
        r@ == returns_folded(node@),
{
    let t = FoldReturn;
    let w = Spine;
    proof {
        assert((|n: Node| t.step(n)) =~= (|n: Node| folded_return(n)));
        assert((|n: Node, i: int| Within::enters(&w, n, i)) =~= (|n: Node, i: int|
            crate::parts::on_spine(n, i)));
    }
    map_within(&node, &w, &t)
}

/// Whether the condition is one that a loop guard tests: a variable or an order.
pub open spec fn is_guard_cond(n: Node) -> bool {
    n is Var || (n matches Node::BinOp { op, .. } && (op == BinOp::Gt || op == BinOp::Ge || op
        == BinOp::Lt || op == BinOp::Le))
}

/// Whether the expression is a bare abort or the unit value.
pub open spec fn is_abort_or_unit(n: Node) -> bool {
    n is Abort || is_unit_value(n)
}

/// A branch on the condition, written `cond` before it was stripped itself,
/// without a side that does nothing. The guard of a loop keeps both sides.
pub open spec fn branch_stripped(cond: Node, stripped: Node, t: Node, e: Node) -> Node {
    let guard = is_guard_cond(cond) && ((does_nothing(t) && is_abort_or_unit(t)) || (does_nothing(
        e,
    ) && is_abort_or_unit(e)));
    if !guard && does_nothing(t) && !does_nothing(e) {
        e
    } else if !guard && does_nothing(e) && !does_nothing(t) {
        t
    } else {
        Node::If {
            cond: Box::new(stripped),
            then_branch: Box::new(t),
            else_branch: Box::new(e),
        }
    }
}

/// The expression without the branches that do nothing.
pub open spec fn aborts_stripped(n: Node) -> Node
    decreases n,
{
    match n {
        Node::If { cond, then_branch, else_branch } => branch_stripped(
            *cond,
            aborts_stripped(*cond),
            aborts_stripped(*then_branch),
            aborts_stripped(*else_branch),
        ),
        Node::Let { pattern, value, body } => Node::Let {
            pattern,
            value: Box::new(aborts_stripped(*value)),
            body: Box::new(aborts_stripped(*body)),
        },
        Node::Match { scrutinee, cases } => Node::Match {
            scrutinee,
            cases: cases_stripped(cases),
        },
        _ => n,
    }
}

/// The cases without the branches of their bodies that do nothing.
pub open spec fn cases_stripped(cases: Seq<(usize, Seq<Name>, Node)>) -> Seq<
    (usize, Seq<Name>, Node),
>
    decreases cases,
{
    Seq::new(
        cases.len(),
        |i: int|
            if 0 <= i < cases.len() {
                (cases[i].0, cases[i].1, aborts_stripped(cases[i].2))
            } else {
                arbitrary()
            },
    )
}

/// Removes the branches that do nothing.
pub fn strip_abort_branches(node: &IRNode) -> (r: IRNode)
    ensures
        r@ == aborts_stripped(node@),
    decreases node,
{
    match node {
        IRNode::If { cond, then_branch, else_branch } => {
            let c = strip_abort_branches(cond);
            let t = strip_abort_branches(then_branch);
            let e = strip_abort_branches(else_branch);
            strip_abort_if(cond, c, t, e)
        },
        IRNode::Let { pattern, value, body } => IRNode::Let {
            pattern: crate::ir::clone_names(pattern),
            value: Box::new(strip_abort_branches(value)),
            body: Box::new(strip_abort_branches(body)),
        },
        IRNode::Match { scrutinee, cases } => IRNode::Match {
            scrutinee: Box::new((**scrutinee).clone()),
            cases: strip_cases(cases),
        },
        _ => node.clone(),
    }
}

/// Whether the condition is one that a loop guard tests.
fn tests_guard(cond: &IRNode) -> (r: bool)
    ensures
        r == is_guard_cond(cond@),
{
    match cond {
        IRNode::Var(_) => true,
        IRNode::BinOp { op, .. } => match op {
            BinOp::Gt | BinOp::Ge | BinOp::Lt | BinOp::Le => true,
            _ => false,
        },
        _ => false,
    }
}

/// Whether the expression is a bare abort or the unit value.
fn bare_abort_or_unit(n: &IRNode) -> (r: bool)
    ensures
        r == is_abort_or_unit(n@),
{
    match n {
        IRNode::Abort { .. } => true,
        _ => is_empty_tuple(n),
    }
}

/// Removes a side that does nothing, with the condition.
fn strip_abort_if(cond: &IRNode, stripped: IRNode, t: IRNode, e: IRNode) -> (r: IRNode)
    ensures
        r@ == branch_stripped(cond@, stripped@, t@, e@),
{
    let then_is_unit = is_unit(&t);
    let else_is_unit = is_unit(&e);
    let guard = tests_guard(cond) && ((then_is_unit && bare_abort_or_unit(&t)) || (else_is_unit
        && bare_abort_or_unit(&e)));
    if !guard {
        if then_is_unit && !else_is_unit {
            return e;
        }
        if else_is_unit && !then_is_unit {
            return t;
        }
    }
    IRNode::If { cond: Box::new(stripped), then_branch: Box::new(t), else_branch: Box::new(e) }
}

/// Removes the branches of the case bodies that do nothing.
fn strip_cases(cases: &Vec<(usize, Vec<TempId>, IRNode)>) -> (r: Vec<
    (usize, Vec<TempId>, IRNode),
>)
    ensures
        IRNode::case_views(r@) == cases_stripped(IRNode::case_views(cases@)),
    decreases cases,
{
    let ghost all = IRNode::case_views(cases@);
    let ghost goal = cases_stripped(all);
    let mut out: Vec<(usize, Vec<TempId>, IRNode)> = Vec::new();
    let mut i: usize = 0;
    while i < cases.len()
        invariant
            i <= cases.len(),
            out@.len() == i,
            all == IRNode::case_views(cases@),
            goal == cases_stripped(all),
            forall|j: int| #![trigger out@[j]]
                0 <= j < i ==> (out@[j].0, crate::ir::names(out@[j].1@), out@[j].2@) == goal[j],
        decreases cases.len() - i,
    {
        assert(all[i as int].2 == cases@[i as int].2@);
        let body = strip_abort_branches(&cases[i].2);
        out.push((cases[i].0, crate::ir::clone_names(&cases[i].1), body));
        i += 1;
    }
    assert(IRNode::case_views(out@) =~= goal);
    out
}

/// Folds the early returns and then removes the branches that do nothing.
pub fn fold_early_returns(node: IRNode) -> (r: IRNode)
    ensures
        r@ == aborts_stripped(returns_folded(node@)),
{
    strip_abort_branches(&fold_early_returns_inner(node))
}

/// Whether the expression ends in the unit value or an abort.
pub open spec fn ends_in_unit(n: Node) -> bool
    decreases n,
{
    match n {
        Node::Tuple(elems) => elems.len() == 0,
        Node::Abort { .. } => true,
        Node::Let { body, .. } => ends_in_unit(*body),
        _ => false,
    }
}

/// Whether the expression ends in the unit value or an abort.
fn is_effectively_unit_for_aborts(node: &IRNode) -> (r: bool)
    ensures
        r == ends_in_unit(node@),
    decreases node,
{
    match node {
        IRNode::Tuple(elems) => {
            assert(IRNode::views(elems@).len() == elems@.len());
            elems.len() == 0
        },
        IRNode::Abort { .. } => true,
        IRNode::Let { body, .. } => is_effectively_unit_for_aborts(body),
        _ => false,
    }
}

/// The boolean false.
pub open spec fn lit_false() -> Node {
    Node::Const(Lit::Bool(false))
}

/// The expression with `false` in the place of the unit value or the abort that
/// it ends in.
pub open spec fn unit_to_false(n: Node) -> Node
    decreases n,
{
    match n {
        Node::Abort { .. } => lit_false(),
        Node::Let { pattern, value, body } => Node::Let {
            pattern,
            value,
            body: Box::new(unit_to_false(*body)),
        },
        _ => if is_unit_value(n) {
            lit_false()
        } else {
            n
        },
    }
}

/// The boolean false.
fn make_false() -> (r: IRNode)
    ensures
        r@ == lit_false(),
{
    IRNode::Const(Const::Bool(false))
}

/// Puts `false` in the place of the unit value or the abort that a branch ends in.
fn wrap_unit_branch_with_false(node: &IRNode) -> (r: IRNode)
    ensures
        r@ == unit_to_false(node@),
    decreases node,
{
    match node {
        IRNode::Abort { .. } => make_false(),
        IRNode::Let { pattern, value, body } => IRNode::Let {
            pattern: crate::ir::clone_names(pattern),
            value: Box::new((**value).clone()),
            body: Box::new(wrap_unit_branch_with_false(body)),
        },
        _ => if is_empty_tuple(node) {
            make_false()
        } else {
            node.clone()
        },
    }
}

/// An assertion followed by a rest, as an abort condition: true where the
/// assertion fails, else what the rest says.
pub open spec fn assertion_tested(n: Node, ids: Seq<FunctionID>) -> Node {
    match n {
        Node::Let { pattern, value, body } => match *value {
            Node::Call { function, args, .. } if pattern.len() == 0 && ids.contains(function)
                && args.len() > 0 => Node::If {
                cond: Box::new(Node::UnOp { op: UnOp::Not, operand: Box::new(args[0]) }),
                then_branch: Box::new(Node::Const(Lit::Bool(true))),
                else_branch: body,
            },
            _ => n,
        },
        _ => n,
    }
}

/// The step that tests an assertion.
struct TestAssertion<'a> {
    ids: &'a Vec<FunctionID>,
}

impl<'a> Rewrite for TestAssertion<'a> {
    closed spec fn accepts(&self, n: Node) -> bool {
        true
    }

    closed spec fn step(&self, n: Node) -> Node {
        assertion_tested(n, self.ids@)
    }

    fn apply(&self, n: IRNode) -> (r: IRNode) {
        proof {
            reveal_with_fuel(IRNode::view, 2);
        }
        match n {
            IRNode::Let { pattern, value, body } => {
                let cond: Option<IRNode> = match &*value {
                    IRNode::Call { function, args, .. } => {
                        assert(IRNode::views(args@).len() == args@.len());
                        if pattern.len() == 0 && contains_id(self.ids, *function) && args.len()
                            > 0 {
                            assert(IRNode::views(args@)[0] == args@[0]@);
                            Some(args[0].clone())
                        } else {
                            None
                        }
                    },
                    _ => None,
                };
                match cond {
                    Some(c) => {
                        let not = IRNode::UnOp { op: UnOp::Not, operand: Box::new(c) };
                        let yes = IRNode::Const(Const::Bool(true));
                        assert(not@ == (Node::UnOp { op: UnOp::Not, operand: Box::new(c@) }));
                        assert(yes@ == Node::Const(Lit::Bool(true)));
                        IRNode::If {
                            cond: Box::new(not),
                            then_branch: Box::new(yes),
                            else_branch: body,
                        }
                    },
                    None => IRNode::Let { pattern, value, body },
                }
            },
            other => other,
        }
    }
}

/// Turns the assertions at the tails into abort conditions.
pub fn rewrite_asserts_in_aborts(node: IRNode, assert_fn_ids: &Vec<FunctionID>) -> (r: IRNode)
    ensures
        r@ == node@.map_in(
            |n: Node, i: int| crate::parts::at_tail(n, i),
            |n: Node| assertion_tested(n, assert_fn_ids@),
        ),
{
    let t = TestAssertion { ids: assert_fn_ids };
    let w = Tails;
    proof {
        assert((|n: Node| t.step(n)) =~= (|n: Node| assertion_tested(n, assert_fn_ids@)));
        assert((|n: Node, i: int| Within::enters(&w, n, i)) =~= (|n: Node, i: int|
            crate::parts::at_tail(n, i)));
    }
    map_within(&node, &w, &t)
}

/// Whether the expression ends in a boolean literal.
pub open spec fn ends_in_bool(n: Node) -> bool
    decreases n,
{
    match n {
        Node::Const(Lit::Bool(_)) => true,
        Node::Let { body, .. } => ends_in_bool(*body),
        Node::If { then_branch, else_branch, .. } => ends_in_bool(*then_branch) && ends_in_bool(
            *else_branch,
        ),
        _ => false,
    }
}

/// Whether the expression ends in a boolean literal.
fn ends_with_bool(node: &IRNode) -> (r: bool)
    ensures
        r == ends_in_bool(node@),
    decreases node,
{
    match node {
        IRNode::Const(Const::Bool(_)) => true,
        IRNode::Let { body, .. } => ends_with_bool(body),
        IRNode::If { then_branch, else_branch, .. } => ends_with_bool(then_branch)
            && ends_with_bool(else_branch),
        _ => false,
    }
}

/// Whether the expression calls a function.
pub open spec fn has_calls(n: Node) -> bool {
    n.any(|m: Node| m is Call)
}

/// The test for a call.
struct IsCall;

impl Test for IsCall {
    closed spec fn holds(&self, n: Node) -> bool {
        n is Call
    }

    fn check(&self, n: &IRNode) -> (r: bool) {
        match n {
            IRNode::Call { .. } => true,
            _ => false,
        }
    }
}

/// Whether the expression calls a function.
fn contains_abort_calls(node: &IRNode) -> (r: bool)
    ensures
        r == has_calls(node@),
{
    let t = IsCall;
    proof {
        assert((|m: Node| t.holds(m)) =~= (|m: Node| m is Call));
    }
    any_node(node, &t)
}

/// Whether some name other than `_` is referred to.
pub open spec fn some_referred(pattern: Seq<Name>, body: Node) -> bool {
    exists|i: int|
        0 <= i < pattern.len() && pattern[i] != "_"@ && body.uses(#[trigger] pattern[i])
}

/// Whether some name other than `_` is referred to.
fn any_referred(pattern: &Vec<TempId>, body: &IRNode) -> (r: bool)
    ensures
        r == some_referred(crate::ir::names(pattern@), body@),
{
    let ghost all = crate::ir::names(pattern@);
    let mut i: usize = 0;
    while i < pattern.len()
        invariant
            i <= pattern.len(),
            all == crate::ir::names(pattern@),
            forall|j: int|
                0 <= j < i ==> all[j] == "_"@ || !body@.uses(#[trigger] all[j]),
        decreases pattern.len() - i,
    {
        assert(all[i as int] == pattern@[i as int]@);
        if !name_is(&pattern[i], "_") && uses_name(body, &pattern[i]) {
            return true;
        }
        i += 1;
    }
    false
}

/// Whether the expression ends in a tuple that is not empty.
pub open spec fn ends_in_tuple(n: Node) -> bool
    decreases n,
{
    match n {
        Node::Tuple(elems) => elems.len() > 0,
        Node::Let { body, .. } => ends_in_tuple(*body),
        Node::If { then_branch, else_branch, .. } => ends_in_tuple(*then_branch) || ends_in_tuple(
            *else_branch,
        ),
        _ => false,
    }
}

/// Whether the expression ends in a tuple that is not empty.
fn ends_with_tuple(node: &IRNode) -> (r: bool)
    ensures
        r == ends_in_tuple(node@),
    decreases node,
{
    match node {
        IRNode::Tuple(elems) => {
            assert(IRNode::views(elems@).len() == elems@.len());
            elems.len() > 0
        },
        IRNode::Let { body, .. } => ends_with_tuple(body),
        IRNode::If { then_branch, else_branch, .. } => ends_with_tuple(then_branch)
            || ends_with_tuple(else_branch),
        _ => false,
    }
}

/// Whether the expression ends in a variable or a tuple that is not empty.
pub open spec fn ends_in_value(n: Node) -> bool
    decreases n,
{
    match n {
        Node::Var(_) => true,
        Node::Tuple(elems) => elems.len() > 0,
        Node::Let { body, .. } => ends_in_value(*body),
        Node::If { then_branch, else_branch, .. } => ends_in_value(*then_branch) || ends_in_value(
            *else_branch,
        ),
        _ => false,
    }
}

/// Whether the expression ends in a variable or a tuple that is not empty.
fn ends_with_non_bool(node: &IRNode) -> (r: bool)
    ensures
        r == ends_in_value(node@),
    decreases node,
{
    match node {
        IRNode::Var(_) => true,
        IRNode::Tuple(elems) => {
            assert(IRNode::views(elems@).len() == elems@.len());
            elems.len() > 0
        },
        IRNode::Let { body, .. } => ends_with_non_bool(body),
        IRNode::If { then_branch, else_branch, .. } => ends_with_non_bool(then_branch)
            || ends_with_non_bool(else_branch),
        _ => false,
    }
}

/// The expression with `false` in the place of each variable or tuple that it
/// ends in.
pub open spec fn value_to_false(n: Node) -> Node
    decreases n,
{
    match n {
        Node::Var(_) => lit_false(),
        Node::Tuple(elems) => if elems.len() > 0 {
            lit_false()
        } else {
            n
        },
        Node::Let { pattern, value, body } => Node::Let {
            pattern,
            value,
            body: Box::new(value_to_false(*body)),
        },
        Node::If { cond, then_branch, else_branch } => Node::If {
            cond,
            then_branch: if ends_in_value(*then_branch) {
                Box::new(value_to_false(*then_branch))
            } else {
                then_branch
            },
            else_branch: if ends_in_value(*else_branch) {
                Box::new(value_to_false(*else_branch))
            } else {
                else_branch
            },
        },
        _ => n,
    }
}

/// Puts `false` in the place of each variable or tuple that a branch ends in.
fn wrap_non_bool_with_false(node: &IRNode) -> (r: IRNode)
    ensures
        r@ == value_to_false(node@),
    decreases node,
{
    match node {
        IRNode::Var(_) => make_false(),
        IRNode::Tuple(elems) => {
            assert(IRNode::views(elems@).len() == elems@.len());
            if elems.len() > 0 {
                make_false()
            } else {
                node.clone()
            }
        },
        IRNode::Let { pattern, value, body } => IRNode::Let {
            pattern: crate::ir::clone_names(pattern),
            value: Box::new((**value).clone()),
            body: Box::new(wrap_non_bool_with_false(body)),
        },
        IRNode::If { cond, then_branch, else_branch } => {
            let t = if ends_with_non_bool(then_branch) {
                wrap_non_bool_with_false(then_branch)
            } else {
                (**then_branch).clone()
            };
            let e = if ends_with_non_bool(else_branch) {
                wrap_non_bool_with_false(else_branch)
            } else {
                (**else_branch).clone()
            };
            IRNode::If {
                cond: Box::new((**cond).clone()),
                then_branch: Box::new(t),
                else_branch: Box::new(e),
            }
        },
        _ => node.clone(),
    }
}

/// Whether the value that a tuple pattern binds is boolean.
pub open spec fn binds_bool(value: Node) -> bool {
    match value {
        Node::If { then_branch, else_branch, .. } => ends_in_bool(*then_branch) || ends_in_bool(
            *else_branch,
        ),
        _ => ends_in_bool(value),
    }
}

/// A binding in an abort condition, dropped where it cannot matter. A tuple
/// pattern cannot bind a boolean.
pub open spec fn simplified_let(pattern: Seq<Name>, value: Node, body: Node) -> Node {
    let p: Seq<Name> = if pattern.len() > 1 && binds_bool(value) {
        Seq::empty()
    } else {
        pattern
    };
    if !some_referred(p, body) && ((body == lit_false() && !has_calls(value)) || value
        is Inhabited) {
        body
    } else {
        Node::Let { pattern: p, value: Box::new(value), body: Box::new(body) }
    }
}

/// Whether a branch of an abort condition never aborts.
pub open spec fn never_aborts(n: Node) -> bool {
    n == lit_false() || (does_nothing(n) && !has_calls(n)) || (ends_in_unit(n) && !has_calls(n))
}

/// A branch of an abort condition, as a boolean.
pub open spec fn as_bool(n: Node, other_is_bool: bool) -> Node {
    if ends_in_unit(n) && n != lit_false() {
        unit_to_false(n)
    } else if ends_in_tuple(n) && other_is_bool {
        value_to_false(n)
    } else {
        n
    }
}

/// A branch in an abort condition: false where neither side aborts, else with
/// booleans on both sides.
pub open spec fn simplified_branch(cond: Node, t: Node, e: Node) -> Node {
    if never_aborts(t) && never_aborts(e) && !has_bindings(t) && !has_bindings(e) {
        lit_false()
    } else if (never_aborts(t) && e == lit_false()) || (t == lit_false() && never_aborts(e)) {
        lit_false()
    } else {
        Node::If {
            cond: Box::new(cond),
            then_branch: Box::new(as_bool(t, ends_in_bool(e))),
            else_branch: Box::new(as_bool(e, ends_in_bool(t))),
        }
    }
}

/// One simplification step in an abort condition.
pub open spec fn simplified_abort(n: Node) -> Node {
    match n {
        Node::Let { pattern, value, body } => simplified_let(pattern, *value, *body),
        Node::If { cond, then_branch, else_branch } => simplified_branch(
            *cond,
            *then_branch,
            *else_branch,
        ),
        _ => n,
    }
}

/// Whether the expression is the boolean false.
fn is_const_false(node: &IRNode) -> (r: bool)
    ensures
        r == (node@ == lit_false()),
{
    match node {
        IRNode::Const(Const::Bool(b)) => !*b,
        _ => false,
    }
}

/// Whether a branch of an abort condition never aborts.
fn branch_never_aborts(n: &IRNode) -> (r: bool)
    ensures
        r == never_aborts(n@),
{
    is_const_false(n) || (is_unit(n) && !contains_abort_calls(n)) || (
    is_effectively_unit_for_aborts(n) && !contains_abort_calls(n))
}

/// A branch of an abort condition, as a boolean.
fn make_bool(n: IRNode, other_is_bool: bool) -> (r: IRNode)
    ensures
        r@ == as_bool(n@, other_is_bool),
{
    if is_effectively_unit_for_aborts(&n) && !is_const_false(&n) {
        wrap_unit_branch_with_false(&n)
    } else if ends_with_tuple(&n) && other_is_bool {
        wrap_non_bool_with_false(&n)
    } else {
        n
    }
}

/// The step that simplifies an abort condition.
struct SimplifyAbort;

impl Rewrite for SimplifyAbort {
    closed spec fn accepts(&self, n: Node) -> bool {
        true
    }

    closed spec fn step(&self, n: Node) -> Node {
        simplified_abort(n)
    }

    fn apply(&self, n: IRNode) -> (r: IRNode) {
        match n {
            IRNode::Let { pattern, value, body } => {
                let p: Vec<TempId> = if pattern.len() > 1 && is_bool_value(&value) {
                    Vec::new()
                } else {
                    pattern
                };
                assert(crate::ir::names(p@) =~= if pattern@.len() > 1 && binds_bool(value@) {
                    Seq::empty()
                } else {
                    crate::ir::names(pattern@)
                });
                let inhabited = match &*value {
                    IRNode::Inhabited => true,
                    _ => false,
                };
                assert(inhabited == (value@ is Inhabited));
                if !any_referred(&p, &body) && ((is_const_false(&body) && !contains_abort_calls(
                    &value,
                )) || inhabited) {
                    return *body;
                }
                IRNode::Let { pattern: p, value, body }
            },
            IRNode::If { cond, then_branch, else_branch } => {
                let t_never = branch_never_aborts(&then_branch);
                let e_never = branch_never_aborts(&else_branch);
                if t_never && e_never && !contains_bindings(&then_branch) && !contains_bindings(
                    &else_branch,
                ) {
                    return make_false();
                }
                if (t_never && is_const_false(&else_branch)) || (is_const_false(&then_branch)
                    && e_never) {
                    return make_false();
                }
                let t_bool = ends_with_bool(&then_branch);
                let e_bool = ends_with_bool(&else_branch);
                let t = make_bool(*then_branch, e_bool);
                let e = make_bool(*else_branch, t_bool);
                IRNode::If { cond, then_branch: Box::new(t), else_branch: Box::new(e) }
            },
            other => other,
        }
    }
}

/// Whether the value that a tuple pattern binds is boolean.
fn is_bool_value(value: &IRNode) -> (r: bool)
    ensures
        r == binds_bool(value@),
{
    match value {
        IRNode::If { then_branch, else_branch, .. } => ends_with_bool(then_branch)
            || ends_with_bool(else_branch),
        _ => ends_with_bool(value),
    }
}

/// Simplifies an abort condition along the control flow.
pub fn simplify_aborts(node: IRNode) -> (r: IRNode)
    ensures
        r@ == node@.map_in(
            |n: Node, i: int| crate::parts::on_spine(n, i),
            |n: Node| simplified_abort(n),
        ),
{
    let t = SimplifyAbort;
    let w = Spine;
    proof {
        assert((|n: Node| t.step(n)) =~= (|n: Node| simplified_abort(n)));
        assert((|n: Node, i: int| Within::enters(&w, n, i)) =~= (|n: Node, i: int|
            crate::parts::on_spine(n, i)));
    }
    map_within(&node, &w, &t)
}

/// The expression, or false in the place of a placeholder.
pub open spec fn inhabited_to_false(n: Node) -> Node {
    if n is Inhabited {
        lit_false()
    } else {
        n
    }
}

/// An abort condition with its placeholders replaced by false.
pub open spec fn placeholders_filled(n: Node) -> Node {
    n.map(|m: Node| inhabited_to_false(m))
}

/// The step that replaces a placeholder.
struct FillInhabited;

impl Rewrite for FillInhabited {
    closed spec fn accepts(&self, n: Node) -> bool {
        true
    }

    closed spec fn step(&self, n: Node) -> Node {
        inhabited_to_false(n)
    }

    fn apply(&self, n: IRNode) -> (r: IRNode) {
        match n {
            IRNode::Inhabited => make_false(),
            other => other,
        }
    }
}

/// Replaces the placeholders of an abort condition by false.
pub fn replace_inhabited_with_false(node: IRNode) -> (r: IRNode)
    ensures
        r@ == placeholders_filled(node@),
{
    let t = FillInhabited;
    proof {
        node@.lemma_map_accepts_all(|n: Node| t.step(n), |n: Node| t.accepts(n));
        assert((|n: Node| t.step(n)) =~= (|n: Node| inhabited_to_false(n)));
    }
    map_nodes(&node, &t)
}

/// Whether a placeholder stands in the expression.
pub open spec fn has_inhabited(n: Node) -> bool {
    n.any(|m: Node| m is Inhabited)
}

/// The test for a placeholder.
struct IsInhabited;

impl Test for IsInhabited {
    closed spec fn holds(&self, n: Node) -> bool {
        n is Inhabited
    }

    fn check(&self, n: &IRNode) -> (r: bool) {
        match n {
            IRNode::Inhabited => true,
            _ => false,
        }
    }
}

/// Whether a placeholder stands in the expression.
fn contains_inhabited(node: &IRNode) -> (r: bool)
    ensures
        r == has_inhabited(node@),
{
    let t = IsInhabited;
    proof {
        assert((|m: Node| t.holds(m)) =~= (|m: Node| m is Inhabited));
    }
    any_node(node, &t)
}

/// False for one name, a tuple of as many for none or several.
pub open spec fn falses(count: nat) -> Node {
    if count == 1 {
        lit_false()
    } else {
        Node::Tuple(Seq::new(count, |i: int| lit_false()))
    }
}

/// A binding of a value with a placeholder in it, bound to false instead.
pub open spec fn bound_to_false(n: Node) -> Node {
    match n {
        Node::Let { pattern, value, body } => if has_inhabited(*value) {
            Node::Let { pattern, value: Box::new(falses(pattern.len())), body }
        } else {
            n
        },
        _ => n,
    }
}

/// The positions in which bindings of placeholders are replaced: everywhere but in a
/// bound value, which is replaced as a whole.
pub open spec fn below_binding(n: Node, i: int) -> bool {
    !(n is Let && i == 0)
}

/// The walk past bound values.
struct BelowBinding;

impl Within for BelowBinding {
    open spec fn enters(&self, n: Node, i: int) -> bool {
        below_binding(n, i)
    }

    fn enter(&self, n: &IRNode, i: usize) -> (r: bool) {
        match n {
            IRNode::Let { .. } => i != 0,
            _ => true,
        }
    }
}

/// The step that binds false.
struct BindFalse;

impl Rewrite for BindFalse {
    closed spec fn accepts(&self, n: Node) -> bool {
        true
    }

    closed spec fn step(&self, n: Node) -> Node {
        bound_to_false(n)
    }

    fn apply(&self, n: IRNode) -> (r: IRNode) {
        match n {
            IRNode::Let { pattern, value, body } => {
                if contains_inhabited(&value) {
                    let v = make_falses(pattern.len());
                    IRNode::Let { pattern, value: Box::new(v), body }
                } else {
                    IRNode::Let { pattern, value, body }
                }
            },
            other => other,
        }
    }
}

/// False for one name, a tuple of as many for none or several.
fn make_falses(count: usize) -> (r: IRNode)
    ensures
        r@ == falses(count as nat),
{
    if count == 1 {
        return make_false();
    }
    let mut elems: Vec<IRNode> = Vec::new();
    while elems.len() < count
        invariant
            elems@.len() <= count,
            forall|j: int| 0 <= j < elems@.len() ==> (#[trigger] elems@[j])@ == lit_false(),
        decreases count - elems.len(),
    {
        elems.push(make_false());
    }
    assert(IRNode::views(elems@) =~= Seq::new(count as nat, |i: int| lit_false()));
    IRNode::Tuple(elems)
}

/// Binds false in the place of each value with a placeholder in it.
pub fn replace_inhabited_let_values(node: IRNode) -> (r: IRNode)
    ensures
        r@ == node@.map_in(
            |n: Node, i: int| below_binding(n, i),
            |n: Node| bound_to_false(n),
        ),
{
    let t = BindFalse;
    let w = BelowBinding;
    proof {
        assert((|n: Node| t.step(n)) =~= (|n: Node| bound_to_false(n)));
        assert((|n: Node, i: int| Within::enters(&w, n, i)) =~= (|n: Node, i: int| below_binding(
            n,
            i,
        )));
    }
    map_within(&node, &w, &t)
}

/// The names that an expression binds around its `i`th direct subexpression.
pub open spec fn bound_around(n: Node, i: int) -> Seq<Name> {
    match n {
        Node::Let { pattern, .. } => if i == 1 {
            pattern
        } else {
            Seq::empty()
        },
        Node::Match { cases, .. } => if 1 <= i <= cases.len() {
            cases[i - 1].1
        } else {
            Seq::empty()
        },
        Node::MatchOption { binding, .. } => if i == 1 {
            seq![binding]
        } else {
            Seq::empty()
        },
        Node::MutableBorrow { reconstruct_param, .. } => if i == 1 {
            seq![reconstruct_param]
        } else {
            Seq::empty()
        },
        Node::Quantifier { binding, .. } => seq![binding],
        _ => Seq::empty(),
    }
}

/// The expression with false in the place of each variable that is not in scope.
pub open spec fn undefined_to_false(n: Node, scope: Seq<Name>) -> Node
    decreases n, 1nat,
{
    match n {
        Node::Var(x) => if scope.contains(x) {
            n
        } else {
            lit_false()
        },
        _ => n.with_kids(kids_undefined_to_false(n, scope)),
    }
}

/// The direct subexpressions with false in the place of each variable that is not in
/// scope there.
pub open spec fn kids_undefined_to_false(n: Node, scope: Seq<Name>) -> Seq<Node>
    decreases n, 0nat,
{
    proof {
        n.lemma_kids_decrease();
    }
    Seq::new(
        n.kids().len(),
        |i: int|
            if 0 <= i < n.kids().len() {
                undefined_to_false(n.kids()[i], scope + bound_around(n, i))
            } else {
                arbitrary()
            },
    )
}

/// A scope with more names.
fn extended(scope: &Vec<TempId>, more: &Vec<TempId>) -> (r: Vec<TempId>)
    ensures
        crate::ir::names(r@) == crate::ir::names(scope@) + crate::ir::names(more@),
{
    let mut out = crate::ir::clone_names(scope);
    let mut rest = crate::ir::clone_names(more);
    out.append(&mut rest);
    assert(crate::ir::names(out@) =~= crate::ir::names(scope@) + crate::ir::names(more@));
    out
}

/// The names that an expression binds around its `i`th direct subexpression.
fn names_around(node: &IRNode, i: usize) -> (r: Vec<TempId>)
    ensures
        crate::ir::names(r@) == bound_around(node@, i as int),
{
    let mut one: Vec<TempId> = Vec::new();
    match node {
        IRNode::Let { pattern, .. } => if i == 1 {
            return crate::ir::clone_names(pattern);
        },
        IRNode::Match { cases, .. } => {
            assert(IRNode::case_views(cases@).len() == cases@.len());
            if 1 <= i && i <= cases.len() {
                assert(IRNode::case_views(cases@)[i - 1].1 == crate::ir::names(
                    cases@[i - 1].1@,
                ));
                return crate::ir::clone_names(&cases[i - 1].1);
            }
        },
        IRNode::MatchOption { binding, .. } => if i == 1 {
            one.push(binding.clone());
        },
        IRNode::MutableBorrow { reconstruct_param, .. } => if i == 1 {
            one.push(reconstruct_param.clone());
        },
        IRNode::Quantifier { binding, .. } => {
            one.push(binding.clone());
        },
        _ => {},
    }
    assert(crate::ir::names(one@) =~= bound_around(node@, i as int));
    one
}

/// Replaces the variables that are not in scope by false.
fn fix_inner(node: &IRNode, scope: &Vec<TempId>) -> (r: IRNode)
    ensures
        r@ == undefined_to_false(node@, crate::ir::names(scope@)),
    decreases node@,
{
    match node {
        IRNode::Var(x) => {
            return if contains_name(scope, x) {
                node.clone()
            } else {
                make_false()
            };
        },
        _ => {},
    }
    let ghost sc = crate::ir::names(scope@);
    let ks = node.children();
    let mut out: Vec<IRNode> = Vec::new();
    let mut i: usize = 0;
    proof {
        node@.lemma_kids_decrease();
    }
    while i < ks.len()
        invariant
            i <= ks.len(),
            out@.len() == i,
            sc == crate::ir::names(scope@),
            ks@.len() == node@.kids().len(),
            forall|j: int| 0 <= j < ks@.len() ==> (#[trigger] ks@[j])@ == node@.kids()[j],
            forall|j: int|
                0 <= j < i ==> (#[trigger] out@[j])@ == undefined_to_false(
                    node@.kids()[j],
                    sc + bound_around(node@, j),
                ),
            forall|j: int| 0 <= j < node@.kids().len() ==> decreases_to!(
                node@ => #[trigger] node@.kids()[j]
            ),
        decreases ks.len() - i,
    {
        assert(ks@[i as int]@ == node@.kids()[i as int]);
        let more = names_around(node, i);
        let inner = extended(scope, &more);
        out.push(fix_inner(ks[i], &inner));
        i += 1;
    }
    assert(IRNode::views(out@) =~= kids_undefined_to_false(node@, sc));
    node.with_children(out)
}

/// Replaces the variables of an abort condition that are not in scope by false.
pub fn fix_undefined_vars_in_aborts(node: IRNode, initial_scope: &Vec<String>) -> (r: IRNode)
    ensures
        r@ == undefined_to_false(node@, crate::ir::names(initial_scope@)),
{
    fix_inner(&node, initial_scope)
}

/// The code of the abort that the expression ends in.
pub open spec fn tail_abort(n: Node) -> Option<Option<Node>>
    decreases n,
{
    match n {
        Node::Abort { code } => Some(
            match code {
                Some(c) => Some(*c),
                None => None,
            },
        ),
        Node::Let { body, .. } => tail_abort(*body),
        _ => None,
    }
}

/// The abort with the code.
pub open spec fn abort_with(code: Option<Node>) -> Node {
    Node::Abort {
        code: match code {
            Some(c) => Some(Box::new(c)),
            None => None,
        },
    }
}

/// The abort that the expression is a call of: the call is of a loop continuation
/// whose body ends in an abort.
pub open spec fn called_abort(n: Node, p: Prog) -> Option<Node> {
    match n {
        Node::Call { function, .. } => if p.has(function) && !p.func(function).is_native
            && crate::text::occurs(p.func(function).name, ".after"@) {
            match tail_abort(p.func(function).body) {
                Some(code) => Some(abort_with(code)),
                None => None,
            }
        } else {
            None
        },
        _ => None,
    }
}

/// The expression, or the abort that it is a call of.
pub open spec fn abort_in_place(n: Node, p: Prog) -> Node {
    match called_abort(n, p) {
        Some(a) => a,
        None => n,
    }
}

/// The cases with aborts in the place of calls of aborting continuations.
pub open spec fn cases_in_place(cases: Seq<(usize, Seq<Name>, Node)>, p: Prog) -> Seq<
    (usize, Seq<Name>, Node),
> {
    Seq::new(cases.len(), |i: int| (cases[i].0, cases[i].1, abort_in_place(cases[i].2, p)))
}

/// An expression that binds the result of an aborting continuation, or has a call
/// of one as a branch, with the abort in its place.
pub open spec fn abort_inlined(n: Node, p: Prog) -> Node {
    match n {
        Node::Let { value, .. } => match called_abort(*value, p) {
            Some(a) => a,
            None => n,
        },
        Node::If { cond, then_branch, else_branch } => Node::If {
            cond,
            then_branch: Box::new(abort_in_place(*then_branch, p)),
            else_branch: Box::new(abort_in_place(*else_branch, p)),
        },
        Node::Match { scrutinee, cases } => Node::Match {
            scrutinee,
            cases: cases_in_place(cases, p),
        },
        _ => n,
    }
}

/// The positions in which such calls are looked for.
pub open spec fn in_flow(n: Node, i: int) -> bool {
    n is Let || (n is If && i >= 1) || (n is Match && i >= 1)
}

/// The walk through bindings and branches.
struct Flow;

impl Within for Flow {
    open spec fn enters(&self, n: Node, i: int) -> bool {
        in_flow(n, i)
    }

    fn enter(&self, n: &IRNode, i: usize) -> (r: bool) {
        match n {
            IRNode::Let { .. } => true,
            IRNode::If { .. } => i >= 1,
            IRNode::Match { .. } => i >= 1,
            _ => false,
        }
    }
}

/// The step that puts an abort in the place of a call.
struct InlineAbort<'a> {
    program: &'a Program,
}

impl<'a> Rewrite for InlineAbort<'a> {
    closed spec fn accepts(&self, n: Node) -> bool {
        true
    }

    closed spec fn step(&self, n: Node) -> Node {
        abort_inlined(n, self.program@)
    }

    fn apply(&self, n: IRNode) -> (r: IRNode) {
        match n {
            IRNode::Let { pattern, value, body } => match find_called_abort(
                &value,
                self.program,
            ) {
                Some(a) => a,
                None => IRNode::Let { pattern, value, body },
            },
            IRNode::If { cond, then_branch, else_branch } => IRNode::If {
                cond,
                then_branch: Box::new(put_abort(*then_branch, self.program)),
                else_branch: Box::new(put_abort(*else_branch, self.program)),
            },
            IRNode::Match { scrutinee, cases } => IRNode::Match {
                scrutinee,
                cases: put_aborts(&cases, self.program),
            },
            other => other,
        }
    }
}

/// What an optional expression holds.
pub open spec fn optional_node(n: Option<IRNode>) -> Option<Node> {
    match n {
        Some(x) => Some(x@),
        None => None,
    }
}

/// The code of the abort that the expression ends in.
fn abort_tail_code(node: &IRNode) -> (r: Option<Option<IRNode>>)
    ensures
        match r {
            Some(c) => tail_abort(node@) == Some(optional_node(c)),
            None => tail_abort(node@) is None,
        },
    decreases node,
{
    match node {
        IRNode::Abort { code } => match code {
            Some(c) => Some(Some((**c).clone())),
            None => Some(None),
        },
        IRNode::Let { body, .. } => abort_tail_code(body),
        _ => None,
    }
}

/// The abort that the expression is a call of.
fn find_called_abort(node: &IRNode, program: &Program) -> (r: Option<IRNode>)
    ensures
        optional_node(r) == called_abort(node@, program@),
{
    match node {
        IRNode::Call { function, .. } => match program.function_slot(*function) {
            Some(k) => {
                let f = &program.functions[k].1;
                if f.is_native || !has_text(f.name.as_str(), ".after") {
                    return None;
                }
                match abort_tail_code(&f.body) {
                    Some(code) => {
                        let a = match code {
                            Some(c) => IRNode::Abort { code: Some(Box::new(c)) },
                            None => IRNode::Abort { code: None },
                        };
                        Some(a)
                    },
                    None => None,
                }
            },
            None => None,
        },
        _ => None,
    }
}

/// The expression, or the abort that it is a call of.
fn put_abort(node: IRNode, program: &Program) -> (r: IRNode)
    ensures
        r@ == abort_in_place(node@, program@),
{
    match find_called_abort(&node, program) {
        Some(a) => a,
        None => node,
    }
}

/// The cases with aborts in the place of calls of aborting continuations.
fn put_aborts(cases: &Vec<(usize, Vec<TempId>, IRNode)>, program: &Program) -> (r: Vec<
    (usize, Vec<TempId>, IRNode),
>)
    ensures
        IRNode::case_views(r@) == cases_in_place(IRNode::case_views(cases@), program@),
{
    let ghost all = IRNode::case_views(cases@);
    let ghost goal = cases_in_place(all, program@);
    let mut out: Vec<(usize, Vec<TempId>, IRNode)> = Vec::new();
    let mut i: usize = 0;
    while i < cases.len()
        invariant
            i <= cases.len(),
            out@.len() == i,
            all == IRNode::case_views(cases@),
            goal == cases_in_place(all, program@),
            forall|j: int| #![trigger out@[j]]
                0 <= j < i ==> (out@[j].0, crate::ir::names(out@[j].1@), out@[j].2@) == goal[j],
        decreases cases.len() - i,
    {
        assert(all[i as int].2 == cases@[i as int].2@);
        let body = put_abort(cases[i].2.clone(), program);
        out.push((cases[i].0, crate::ir::clone_names(&cases[i].1), body));
        i += 1;
    }
    assert(IRNode::case_views(out@) =~= goal);
    out
}

/// Whether the name is that of a specification part or an abort companion.
pub open spec fn is_face(name: Name) -> bool {
    crate::text::occurs(name, ".aborts"@) || crate::text::occurs(name, ".ensures"@)
        || crate::text::occurs(name, ".requires"@) || crate::text::occurs(name, ".asserts"@)
}

/// The body of a function with the calls of aborting continuations inlined.
pub open spec fn inlined_body(p: Prog, body: Node) -> Node {
    body.map_in(|n: Node, i: int| in_flow(n, i), |n: Node| abort_inlined(n, p))
}

/// The function with the calls of aborting continuations inlined, unless it is
/// native, a specification part or an abort companion.
pub open spec fn inlined_func(p: Prog, f: Func) -> Func {
    if f.is_native || is_face(f.name) {
        f
    } else {
        Func { body: inlined_body(p, f.body), ..f }
    }
}

/// The program with the calls of aborting continuations inlined.
pub open spec fn after_calls_inlined(p: Prog) -> Prog {
    Prog {
        functions: Seq::new(
            p.functions.len(),
            |i: int| (p.functions[i].0, inlined_func(p, p.functions[i].1)),
        ),
        ..p
    }
}

/// The body of a function with the calls of aborting continuations inlined.
fn inline_after_calls_inner(body: &IRNode, program: &Program) -> (r: IRNode)
    ensures
        r@ == inlined_body(program@, body@),
{
    let t = InlineAbort { program };
    let w = Flow;
    proof {
        assert((|n: Node| t.step(n)) =~= (|n: Node| abort_inlined(n, program@)));
        assert((|n: Node, i: int| Within::enters(&w, n, i)) =~= (|n: Node, i: int| in_flow(
            n,
            i,
        )));
    }
    map_within(body, &w, &t)
}

/// Inlines the calls of loop continuations that only abort.
pub fn inline_abort_only_after_calls(program: &mut Program)
    ensures
        final(program)@ == after_calls_inlined(old(program)@),
{
    let ghost start = program@;
    let mut bodies: Vec<Option<IRNode>> = Vec::new();
    let mut i: usize = 0;
    while i < program.functions.len()
        invariant
            i <= program.functions.len(),
            program@ == start,
            bodies@.len() == i,
            forall|j: int| #![trigger bodies@[j]]
                0 <= j < i ==> match bodies@[j] {
                    Some(b) => inlined_func(start, start.functions[j].1) == (Func {
                        body: b@,
                        ..start.functions[j].1
                    }),
                    None => inlined_func(start, start.functions[j].1) == start.functions[j].1,
                },
        decreases program.functions.len() - i,
    {
        let f = &program.functions[i].1;
        assert(start.functions[i as int].1 == f@);
        let face = has_text(f.name.as_str(), ".aborts") || has_text(f.name.as_str(), ".ensures")
            || has_text(f.name.as_str(), ".requires") || has_text(f.name.as_str(), ".asserts");
        if f.is_native || face {
            bodies.push(None);
        } else {
            bodies.push(Some(inline_after_calls_inner(&f.body, program)));
        }
        i += 1;
    }
    let ghost before = *program;
    let mut k: usize = program.functions.len();
    let ghost n = program.functions@.len();
    while k > 0
        invariant
            k <= n,
            n == program.functions@.len(),
            n == before.functions@.len(),
            before@ == start,
            *program == (Program { functions: program.functions, ..before }),
            bodies@.len() == k,
            forall|j: int| #![trigger bodies@[j]]
                0 <= j < k ==> match bodies@[j] {
                    Some(b) => inlined_func(start, start.functions[j].1) == (Func {
                        body: b@,
                        ..start.functions[j].1
                    }),
                    None => inlined_func(start, start.functions[j].1) == start.functions[j].1,
                },
            forall|j: int| #![trigger program.functions@[j]]
                0 <= j < k ==> program.functions@[j] == before.functions@[j],
            forall|j: int| #![trigger program.functions@[j]]
                k <= j < n ==> program.functions@[j].0 == start.functions[j].0
                    && program.functions@[j].1@ == inlined_func(start, start.functions[j].1),
        decreases k,
    {
        k -= 1;
        assert(program.functions@[k as int] == before.functions@[k as int]);
        assert(start.functions[k as int].1 == before.functions@[k as int].1@);
        let ghost at_k = bodies@[k as int];
        match bodies.pop() {
            Some(Some(body)) => {
                assert(at_k == Some(body));
                program.functions[k].1.body = body;
            },
            _ => {
                assert(at_k is None);
            },
        }
    }
    assert(program@.functions =~= after_calls_inlined(start).functions);
    assert(program@ =~= after_calls_inlined(start));
}

/// No placeholder is left anywhere.
pub proof fn law_no_placeholder_is_left(n: Node)
    ensures
        !has_inhabited(placeholders_filled(n)),
{
    let f = |m: Node| inhabited_to_false(m);
    let p = |m: Node| m is Inhabited;
    assert forall|m: Node| !m.any_kid(p) implies !(#[trigger] f(m)).any(p) by {
        assert(lit_false().kids().len() == 0);
    }
    n.lemma_map_clears(f, p);
}

/// An abort condition with an assertion in it is true where the assertion fails, and
/// else as the rest says.
pub proof fn law_failed_assertion_aborts(
    id: FunctionID,
    types: Seq<crate::types::Ty>,
    args: Seq<Node>,
    rest: Node,
    ids: Seq<FunctionID>,
    v: spec_fn(Node) -> bool,
    num: spec_fn(Node) -> int,
)
    requires
        ids.contains(id),
        args.len() > 0,
    ensures
        ({
            let asserted = Node::Let {
                pattern: Seq::empty(),
                value: Box::new(Node::Call { function: id, type_args: types, args }),
                body: Box::new(rest),
            };
            crate::logical_simplification::truth(assertion_tested(asserted, ids), v, num) == (
            !crate::logical_simplification::truth(args[0], v, num)
                || crate::logical_simplification::truth(rest, v, num))
        }),
{
    reveal_with_fuel(crate::logical_simplification::truth, 3);
}

/// A branch that returns a value and does nothing else, with a rest behind it,
/// becomes a branch between the value and the rest.
pub proof fn law_early_return_is_folded(cond: Node, value: Node, other: Node, rest: Node)
    requires
        does_nothing(other),
        !does_nothing(rest),
        !falls_through(value),
    ensures
        folded_return(
            Node::Let {
                pattern: Seq::empty(),
                value: Box::new(
                    Node::If {
                        cond: Box::new(cond),
                        then_branch: Box::new(value),
                        else_branch: Box::new(other),
                    },
                ),
                body: Box::new(rest),
            },
        ) == (Node::If {
            cond: Box::new(cond),
            then_branch: Box::new(value),
            else_branch: Box::new(rest),
        }),
{
}

/// A branch that is stripped binds no variable, so none is lost.
pub proof fn law_stripped_branches_bind_nothing(n: Node)
    requires
        does_nothing(n),
    ensures
        !has_bindings(n),
    decreases n,
{
    let p = |m: Node| is_binding(m);
    match n {
        Node::Let { pattern, value, body } => {
            law_stripped_branches_bind_nothing(*body);
            assert(n.kids() =~= seq![*value, *body]);
        },
        Node::Tuple(elems) => {
            assert(n.kids() =~= elems);
        },
        _ => {},
    }
    assert(!n.any_kid(p));
}

/// Whether every variable that the expression refers to is in scope there.
pub open spec fn well_scoped(n: Node, scope: Seq<Name>) -> bool
    decreases n, 1nat,
{
    match n {
        Node::Var(x) => scope.contains(x),
        _ => kids_well_scoped(n, scope),
    }
}

/// Whether every variable that a direct subexpression refers to is in scope there.
pub open spec fn kids_well_scoped(n: Node, scope: Seq<Name>) -> bool
    decreases n, 0nat,
{
    proof {
        n.lemma_kids_decrease();
    }
    forall|i: int|
        0 <= i < n.kids().len() ==> well_scoped(
            #[trigger] n.kids()[i],
            scope + bound_around(n, i),
        )
}

/// New direct subexpressions leave the names alone that are bound around them.
proof fn lemma_bound_around_kept(n: Node, ks: Seq<Node>, i: int)
    requires
        ks.len() == n.kids().len(),
    ensures
        bound_around(n.with_kids(ks), i) == bound_around(n, i),
{
    if let Node::Match { cases, .. } = n {
        assert(n.kids().len() == 1 + cases.len());
    }
}

/// Every variable is in scope once those that are not are replaced.
pub proof fn law_every_variable_is_in_scope(n: Node, scope: Seq<Name>)
    ensures
        well_scoped(undefined_to_false(n, scope), scope),
    decreases n,
{
    n.lemma_kids_decrease();
    let r = undefined_to_false(n, scope);
    if n is Var {
        assert(lit_false().kids().len() == 0);
    } else {
        let ks = kids_undefined_to_false(n, scope);
        n.lemma_with_kids(ks);
        assert forall|i: int| 0 <= i < r.kids().len() implies well_scoped(
            #[trigger] r.kids()[i],
            scope + bound_around(r, i),
        ) by {
            lemma_bound_around_kept(n, ks, i);
            law_every_variable_is_in_scope(n.kids()[i], scope + bound_around(n, i));
        }
        assert(kids_well_scoped(r, scope));
        assert(r !is Var);
    }
}

/// An expression whose variables are all in scope is left as it is.
pub proof fn law_well_scoped_is_left_alone(n: Node, scope: Seq<Name>)
    requires
        well_scoped(n, scope),
    ensures
        undefined_to_false(n, scope) == n,
    decreases n,
{
    n.lemma_kids_decrease();
    if n !is Var {
        let ks = kids_undefined_to_false(n, scope);
        assert(kids_well_scoped(n, scope));
        assert forall|i: int| 0 <= i < ks.len() implies #[trigger] ks[i] == n.kids()[i] by {
            law_well_scoped_is_left_alone(n.kids()[i], scope + bound_around(n, i));
        }
        assert(ks =~= n.kids());
        n.lemma_with_own_kids();
    }
}

} // verus!
