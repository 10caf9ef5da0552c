//! Small simplifications of bindings and boolean branches.

use crate::early_return::is_empty_tuple;
use crate::ir::{BinOp, Const, IRNode, Lit, Node, UnOp};
use crate::logical_simplification::is_pure_expr;
use crate::program::Prog;
use crate::scope::{Vars, VariableRegistry};
use crate::traverse::{calls_function, map_nodes, name_is, Rewrite};
use crate::types::{FunctionID, Name, TempId, Ty, Type};
use vstd::prelude::*;

verus! {

/// Whether the expression binds a variable to itself.
pub open spec fn is_self_binding(n: Node) -> bool {
    n matches Node::Let { pattern, value, .. } && pattern.len() == 1 && *value == Node::Var(
        pattern[0],
    )
}

/// The expression without a binding of a variable to itself.
pub open spec fn without_self_binding(n: Node) -> Node {
    if is_self_binding(n) {
        *n->Let_body
    } else {
        n
    }
}

/// Whether the expression binds a variable to itself.
fn is_identity_let(ir: &IRNode) -> (r: bool)
    ensures
        r == is_self_binding(ir@),
{
    proof {
        reveal_with_fuel(IRNode::view, 2);
    }
    match ir {
        IRNode::Let { pattern, value, .. } => {
            assert(crate::ir::names(pattern@).len() == pattern@.len());
            if pattern.len() == 1 {
                match &**value {
                    IRNode::Var(v) => *v == pattern[0],
                    _ => false,
                }
            } else {
                false
            }
        },
        _ => false,
    }
}

/// The step that drops a binding of a variable to itself.
struct DropSelfBinding;

impl Rewrite for DropSelfBinding {
    closed spec fn accepts(&self, n: Node) -> bool {
        true
    }

    closed spec fn step(&self, n: Node) -> Node {
        without_self_binding(n)
    }

    fn apply(&self, n: IRNode) -> (r: IRNode) {
        if is_identity_let(&n) {
            if let IRNode::Let { body, .. } = n {
                return *body;
            }
        }
        n
    }
}

/// The expression without bindings of variables to themselves.
pub open spec fn self_bindings_removed(n: Node) -> Node {
    n.map(|m: Node| without_self_binding(m))
}

/// Drops the bindings of variables to themselves.
pub fn remove_identity_lets(node: IRNode) -> (r: IRNode)
    ensures
        r@ == self_bindings_removed(node@),
{
    let t = DropSelfBinding;
    proof {
        node@.lemma_map_accepts_all(|n: Node| t.step(n), |n: Node| t.accepts(n));
        assert((|n: Node| t.step(n)) =~= (|n: Node| without_self_binding(n)));
    }
    map_nodes(&node, &t)
}

/// Whether the expression ends in the unit value, behind bindings.
pub open spec fn unit_valued(n: Node) -> bool
    decreases n,
{
    match n {
        Node::Tuple(elems) => elems.len() == 0,
        Node::Let { body, .. } => unit_valued(*body),
        _ => false,
    }
}

/// Whether the expression ends in the unit value, behind bindings.
fn is_unit_valued(node: &IRNode) -> (r: bool)
    ensures
        r == unit_valued(node@),
    decreases node,
{
    match node {
        IRNode::Tuple(_) => is_empty_tuple(node),
        IRNode::Let { body, .. } => is_unit_valued(body),
        _ => false,
    }
}

/// Whether the expression can be boolean: no tail of it has the shape of a value of
/// another type. The shape of a variable, a call or a read tells no type.
pub open spec fn can_be_bool(n: Node) -> bool
    decreases n,
{
    match n {
        Node::Const(c) => c is Bool,
        Node::BinOp { op, .. } => op == BinOp::And || op == BinOp::Or
            || crate::logical_simplification::negated_comparison(op) is Some,
        Node::UnOp { op, .. } => op == UnOp::Not,
        Node::Let { body, .. } => can_be_bool(*body),
        Node::If { then_branch, else_branch, .. } => can_be_bool(*then_branch) && can_be_bool(
            *else_branch,
        ),
        Node::Match { cases, .. } => cases_can_be_bool(cases),
        Node::MatchOption { some_branch, none_branch, .. } => can_be_bool(*some_branch)
            && can_be_bool(*none_branch),
        Node::Var(_) => true,
        Node::Call { .. } => true,
        Node::Field { .. } => true,
        Node::ReadRef(_) => true,
        Node::ToBool(_) => true,
        Node::Inhabited => true,
        Node::Abort { .. } => true,
        Node::ArithOverflowCheck { .. } => true,
        _ => false,
    }
}

/// Whether the body of each case can be boolean.
pub open spec fn cases_can_be_bool(cases: Seq<(usize, Seq<Name>, Node)>) -> bool
    decreases cases,
{
    forall|i: int| 0 <= i < cases.len() ==> can_be_bool((#[trigger] cases[i]).2)
}

/// Whether the expression can be boolean.
fn may_be_bool(node: &IRNode) -> (r: bool)
    ensures
        r == can_be_bool(node@),
    decreases node,
{
    match node {
        IRNode::Const(Const::Bool(_)) => true,
        IRNode::BinOp { op, .. } => match op {
            BinOp::And | BinOp::Or => true,
            BinOp::Eq | BinOp::Neq | BinOp::Lt | BinOp::Le | BinOp::Gt | BinOp::Ge => true,
            _ => false,
        },
        IRNode::UnOp { op, .. } => match op {
            UnOp::Not => true,
            _ => false,
        },
        IRNode::Let { body, .. } => may_be_bool(body),
        IRNode::If { then_branch, else_branch, .. } => may_be_bool(then_branch) && may_be_bool(
            else_branch,
        ),
        IRNode::Match { cases, .. } => cases_may_be_bool(cases),
        IRNode::MatchOption { some_branch, none_branch, .. } => may_be_bool(some_branch)
            && may_be_bool(none_branch),
        IRNode::Var(_) => true,
        IRNode::Call { .. } => true,
        IRNode::Field { .. } => true,
        IRNode::ReadRef(_) => true,
        IRNode::ToBool(_) => true,
        IRNode::Inhabited => true,
        IRNode::Abort { .. } => true,
        IRNode::ArithOverflowCheck { .. } => true,
        _ => false,
    }
}

/// Whether the body of each case can be boolean.
fn cases_may_be_bool(cases: &Vec<(usize, Vec<TempId>, IRNode)>) -> (r: bool)
    ensures
        r == cases_can_be_bool(IRNode::case_views(cases@)),
    decreases cases,
{
    let ghost cs = IRNode::case_views(cases@);
    let mut i: usize = 0;
    while i < cases.len()
        invariant
            i <= cases.len(),
            cs == IRNode::case_views(cases@),
            forall|j: int| 0 <= j < i ==> can_be_bool((#[trigger] cs[j]).2),
        decreases cases.len() - i,
    {
        assert(cs[i as int].2 == cases@[i as int].2@);
        if !may_be_bool(&cases[i].2) {
            return false;
        }
        i += 1;
    }
    true
}

/// A side of a branch: false where it ends in the unit value and the other side can
/// be boolean.
pub open spec fn bool_side(n: Node, other: Node) -> Node {
    if unit_valued(n) && can_be_bool(other) {
        Node::Const(Lit::Bool(false))
    } else {
        n
    }
}

/// A branch with false in the place of a side that ends in the unit value, where the
/// other side can be boolean.
pub open spec fn with_bool_sides(n: Node) -> Node {
    match n {
        Node::If { cond, then_branch, else_branch } => Node::If {
            cond,
            then_branch: Box::new(bool_side(*then_branch, *else_branch)),
            else_branch: Box::new(bool_side(*else_branch, *then_branch)),
        },
        _ => n,
    }
}

/// The step that gives a branch boolean sides.
struct BoolSides;

impl Rewrite for BoolSides {
    closed spec fn accepts(&self, n: Node) -> bool {
        true
    }

    closed spec fn step(&self, n: Node) -> Node {
        with_bool_sides(n)
    }

    fn apply(&self, n: IRNode) -> (r: IRNode) {
        match n {
            IRNode::If { cond, then_branch, else_branch } => {
                let t = is_unit_valued(&then_branch) && may_be_bool(&else_branch);
                let e = is_unit_valued(&else_branch) && may_be_bool(&then_branch);
                let no = IRNode::Const(Const::Bool(false));
                assert(no@ == Node::Const(Lit::Bool(false)));
                IRNode::If {
                    cond,
                    then_branch: if t {
                        Box::new(no.clone())
                    } else {
                        then_branch
                    },
                    else_branch: if e {
                        Box::new(no)
                    } else {
                        else_branch
                    },
                }
            },
            other => other,
        }
    }
}

/// Puts false in the place of a side of a branch that ends in the unit value, where
/// the other side can be boolean.
pub fn normalize_unit_branches(node: IRNode) -> (r: IRNode)
    ensures
        r@ == node@.map(|n: Node| with_bool_sides(n)),
{
    let t = BoolSides;
    proof {
        node@.lemma_map_accepts_all(|n: Node| t.step(n), |n: Node| t.accepts(n));
        assert((|n: Node| t.step(n)) =~= (|n: Node| with_bool_sides(n)));
    }
    map_nodes(&node, &t)
}

/// The boolean literal that the expression is, behind bindings without effects.
pub open spec fn bool_lit(n: Node) -> Option<bool>
    decreases n,
{
    match n {
        Node::Const(Lit::Bool(b)) => Some(b),
        Node::Let { value, body, .. } => if crate::logical_simplification::effect_free(*value) {
            bool_lit(*body)
        } else {
            None
        },
        _ => None,
    }
}

/// The boolean literal that the expression is, behind bindings without effects.
fn get_bool_const(node: &IRNode) -> (r: Option<bool>)
    ensures
        r == bool_lit(node@),
    decreases node,
{
    match node {
        IRNode::Const(Const::Bool(b)) => Some(*b),
        IRNode::Let { value, body, .. } => if is_pure_expr(value) {
            get_bool_const(body)
        } else {
            None
        },
        _ => None,
    }
}

/// Whether the optional boolean is the given one.
fn is_bool(x: Option<bool>, b: bool) -> (r: bool)
    ensures
        r == (x == Some(b)),
{
    match x {
        Some(y) => y == b,
        None => false,
    }
}

/// A branch that only repeats or negates its condition, as the condition.
pub open spec fn condition_of(n: Node) -> Node {
    match n {
        Node::If { cond, then_branch, else_branch } => if bool_lit(*then_branch) == Some(true)
            && bool_lit(*else_branch) == Some(false) {
            *cond
        } else if bool_lit(*then_branch) == Some(false) && bool_lit(*else_branch) == Some(true) {
            Node::UnOp { op: UnOp::Not, operand: cond }
        } else {
            n
        },
        _ => n,
    }
}

/// The step that puts a condition in the place of a branch.
struct ToCondition;

impl Rewrite for ToCondition {
    closed spec fn accepts(&self, n: Node) -> bool {
        true
    }

    closed spec fn step(&self, n: Node) -> Node {
        condition_of(n)
    }

    fn apply(&self, n: IRNode) -> (r: IRNode) {
        match n {
            IRNode::If { cond, then_branch, else_branch } => {
                let t = get_bool_const(&then_branch);
                let e = get_bool_const(&else_branch);
                if is_bool(t, true) && is_bool(e, false) {
                    *cond
                } else if is_bool(t, false) && is_bool(e, true) {
                    IRNode::UnOp { op: UnOp::Not, operand: cond }
                } else {
                    IRNode::If { cond, then_branch, else_branch }
                }
            },
            other => other,
        }
    }
}

/// Puts conditions in the place of branches that only repeat or negate them.
fn simplify_boolean_ifs(node: IRNode) -> (r: IRNode)
    ensures
        r@ == node@.map(|n: Node| condition_of(n)),
{
    let t = ToCondition;
    proof {
        node@.lemma_map_accepts_all(|n: Node| t.step(n), |n: Node| t.accepts(n));
        assert((|n: Node| t.step(n)) =~= (|n: Node| condition_of(n)));
    }
    map_nodes(&node, &t)
}

/// Whether the expression is boolean: each tail of its branches is.
pub open spec fn is_bool_typed(n: Node, vars: Vars, p: Prog) -> bool
    decreases n,
{
    match n {
        Node::If { then_branch, else_branch, .. } => is_bool_typed(*then_branch, vars, p)
            && is_bool_typed(*else_branch, vars, p),
        Node::Let { body, .. } => is_bool_typed(*body, vars, p),
        _ => crate::scope::type_of(n, vars, p) == Some(Ty::Bool),
    }
}

/// Whether the expression is boolean.
fn is_boolean_type(node: &IRNode, reg: &VariableRegistry) -> (r: bool)
    ensures
        r == is_bool_typed(node@, reg@, reg.program@),
    decreases node,
{
    match node {
        IRNode::If { then_branch, else_branch, .. } => is_boolean_type(then_branch, reg)
            && is_boolean_type(else_branch, reg),
        IRNode::Let { body, .. } => is_boolean_type(body, reg),
        _ => match node.get_type(reg) {
            Some(Type::Bool) => true,
            _ => false,
        },
    }
}

/// Whether the expression calls the function that is being simplified.
pub open spec fn recurs(n: Node, own: Option<FunctionID>) -> bool {
    match own {
        Some(id) => n.calls(id),
        None => false,
    }
}

/// Whether the expression calls the function that is being simplified.
fn branch_is_self_recursive(node: &IRNode, self_fn: Option<FunctionID>) -> (r: bool)
    ensures
        r == recurs(node@, self_fn),
{
    match self_fn {
        Some(id) => calls_function(node, id),
        None => false,
    }
}

/// A boolean branch as a conjunction or a disjunction. A branch that recurs keeps
/// its guard.
pub open spec fn joined_branch(
    cond: Node,
    t: Node,
    e: Node,
    vars: Vars,
    p: Prog,
    own: Option<FunctionID>,
) -> Node {
    let tb = bool_lit(t);
    let eb = bool_lit(e);
    if tb is Some && tb == eb {
        Node::Const(Lit::Bool(tb->0))
    } else if eb == Some(false) && tb != Some(false) && !recurs(t, own) && is_bool_typed(
        t,
        vars,
        p,
    ) {
        Node::BinOp { op: BinOp::And, lhs: Box::new(cond), rhs: Box::new(t) }
    } else if tb == Some(true) && eb != Some(true) && !recurs(e, own) && is_bool_typed(
        e,
        vars,
        p,
    ) {
        Node::BinOp { op: BinOp::Or, lhs: Box::new(cond), rhs: Box::new(e) }
    } else {
        Node::If { cond: Box::new(cond), then_branch: Box::new(t), else_branch: Box::new(e) }
    }
}

/// The expression with its boolean branches along the control flow as conjunctions
/// and disjunctions, and the scope after it.
pub open spec fn branches_joined(n: Node, vars: Vars, p: Prog, own: Option<FunctionID>) -> (
    Node,
    Vars,
)
    decreases n,
{
    match n {
        Node::Let { pattern, value, body } => {
            let (v, vars1) = branches_joined(*value, vars, p, own);
            let vars2 = crate::scope::bound(vars1, pattern, crate::scope::type_of(v, vars1, p));
            let (b, vars3) = branches_joined(*body, vars2, p, own);
            (Node::Let { pattern, value: Box::new(v), body: Box::new(b) }, vars3)
        },
        Node::If { cond, then_branch, else_branch } => {
            let (c, vars1) = branches_joined(*cond, vars, p, own);
            let (t, vars2) = branches_joined(*then_branch, vars1, p, own);
            let (e, vars3) = branches_joined(*else_branch, vars2, p, own);
            (joined_branch(c, t, e, vars3, p, own), vars3)
        },
        _ => (n, vars),
    }
}

/// Turns the boolean branches along the control flow into conjunctions and
/// disjunctions.
fn convert_boolean_ifs_to_and_or(
    node: IRNode,
    reg: &mut VariableRegistry,
    self_fn: Option<FunctionID>,
) -> (r: IRNode)
    ensures
        (r@, final(reg)@) == branches_joined(node@, old(reg)@, old(reg).program@, self_fn),
        *final(reg).program == *old(reg).program,
    decreases node,
{
    match node {
        IRNode::Let { pattern, value, body } => {
            let v = convert_boolean_ifs_to_and_or(*value, reg, self_fn);
            let t = v.get_type(reg);
            reg.register_pattern(&pattern, t);
            let b = convert_boolean_ifs_to_and_or(*body, reg, self_fn);
            IRNode::Let { pattern, value: Box::new(v), body: Box::new(b) }
        },
        IRNode::If { cond, then_branch, else_branch } => {
            let c = convert_boolean_ifs_to_and_or(*cond, reg, self_fn);
            let t = convert_boolean_ifs_to_and_or(*then_branch, reg, self_fn);
            let e = convert_boolean_ifs_to_and_or(*else_branch, reg, self_fn);
            let tb = get_bool_const(&t);
            let eb = get_bool_const(&e);
            if let (Some(x), Some(y)) = (tb, eb) {
                if x == y {
                    return IRNode::Const(Const::Bool(x));
                }
            }
            if is_bool(eb, false) && !is_bool(tb, false) && !branch_is_self_recursive(
                &t,
                self_fn,
            ) && is_boolean_type(&t, reg) {
                return IRNode::BinOp { op: BinOp::And, lhs: Box::new(c), rhs: Box::new(t) };
            }
            if is_bool(tb, true) && !is_bool(eb, true) && !branch_is_self_recursive(&e, self_fn)
                && is_boolean_type(&e, reg) {
                return IRNode::BinOp { op: BinOp::Or, lhs: Box::new(c), rhs: Box::new(e) };
            }
            IRNode::If { cond: Box::new(c), then_branch: Box::new(t), else_branch: Box::new(e) }
        },
        other => other,
    }
}

/// Whether the pattern binds nothing.
pub open spec fn binds_nothing(pattern: Seq<Name>) -> bool {
    pattern.len() == 0 || (pattern.len() == 1 && pattern[0] == "_"@)
}

/// A binding that is at once its own result, as the value that is bound.
pub open spec fn collapsed_binding(n: Node) -> Node {
    match n {
        Node::Let { pattern, value, body } => if pattern.len() == 1 && !(*value is WriteBack)
            && *body == Node::Var(pattern[0]) {
            *value
        } else if binds_nothing(pattern) && !(*value is WriteRef) && !(*value is WriteBack)
            && crate::early_return::is_unit_value(*body) {
            *value
        } else {
            n
        },
        _ => n,
    }
}

/// The step that collapses a binding.
struct CollapseBinding;

impl Rewrite for CollapseBinding {
    closed spec fn accepts(&self, n: Node) -> bool {
        true
    }

    closed spec fn step(&self, n: Node) -> Node {
        collapsed_binding(n)
    }

    fn apply(&self, n: IRNode) -> (r: IRNode) {
        proof {
            reveal_with_fuel(IRNode::view, 2);
        }
        match n {
            IRNode::Let { pattern, value, body } => {
                assert(crate::ir::names(pattern@).len() == pattern@.len());
                let write_back = match &*value {
                    IRNode::WriteBack { .. } => true,
                    _ => false,
                };
                let write_ref = match &*value {
                    IRNode::WriteRef { .. } => true,
                    _ => false,
                };
                if pattern.len() == 1 && !write_back {
                    assert(crate::ir::names(pattern@)[0] == pattern@[0]@);
                    if let IRNode::Var(v) = &*body {
                        if *v == pattern[0] {
                            return *value;
                        }
                    }
                }
                let nothing = pattern.len() == 0 || (pattern.len() == 1 && name_is(
                    &pattern[0],
                    "_",
                ));
                assert(nothing == binds_nothing(crate::ir::names(pattern@)));
                if nothing && !write_ref && !write_back && is_empty_tuple(&body) {
                    return *value;
                }
                IRNode::Let { pattern, value, body }
            },
            other => other,
        }
    }
}

/// The expression with each binding collapsed once.
pub open spec fn collapsed_once(n: Node) -> Node {
    n.map(|m: Node| collapsed_binding(m))
}

/// Collapsing makes an expression smaller or leaves it alone.
pub proof fn lemma_collapsed_smaller(n: Node)
    ensures
        collapsed_once(n) == n || collapsed_once(n).weight(crate::measure::one_each()) < n.weight(
            crate::measure::one_each(),
        ),
{
    let f = |m: Node| collapsed_binding(m);
    let w = crate::measure::one_each();
    assert forall|m: Node| #[trigger] f(m) == m || f(m).weight(w) < m.weight(w) by {
        match m {
            Node::Let { pattern, value, body } => {
                assert(m.kids()[0] == *value);
                assert(m.weight_from(w, 0) == m.kids()[0].weight(w) + m.weight_from(w, 1));
            },
            _ => {},
        }
    }
    n.lemma_map_lighter(f, w);
}

/// The expression with its bindings collapsed until none is left to collapse.
pub open spec fn fully_collapsed(n: Node) -> Node
    decreases n.weight(crate::measure::one_each()),
{
    if collapsed_once(n) == n {
        n
    } else {
        proof {
            lemma_collapsed_smaller(n);
        }
        fully_collapsed(collapsed_once(n))
    }
}

/// Collapses each binding once.
fn collapse_once(node: &IRNode) -> (r: IRNode)
    ensures
        r@ == collapsed_once(node@),
{
    let t = CollapseBinding;
    proof {
        node@.lemma_map_accepts_all(|n: Node| t.step(n), |n: Node| t.accepts(n));
        assert((|n: Node| t.step(n)) =~= (|n: Node| collapsed_binding(n)));
    }
    map_nodes(node, &t)
}

/// Collapses bindings until none is left to collapse.
fn collapse_branch_bindings(node: IRNode) -> (r: IRNode)
    ensures
        r@ == fully_collapsed(node@),
{
    let ghost goal = fully_collapsed(node@);
    let mut result = node;
    loop
        invariant
            fully_collapsed(result@) == goal,
        ensures
            result@ == goal,
        decreases result@.weight(crate::measure::one_each()),
    {
        let next = collapse_once(&result);
        proof {
            lemma_collapsed_smaller(result@);
        }
        if next.same(&result) {
            break;
        }
        result = next;
    }
    result
}

/// The cleaned-up expression, and the scope after it.
pub open spec fn cleaned(n: Node, vars: Vars, p: Prog, own: Option<FunctionID>) -> (Node, Vars) {
    let (m, vars1) = branches_joined(
        self_bindings_removed(n).map(|k: Node| condition_of(k)),
        vars,
        p,
        own,
    );
    (fully_collapsed(m), vars1)
}

/// Drops bindings of variables to themselves, simplifies boolean branches, and
/// collapses bindings.
pub fn cleanup(node: IRNode, reg: &mut VariableRegistry, self_fn: Option<usize>) -> (r: IRNode)
    ensures
        (r@, final(reg)@) == cleaned(node@, old(reg)@, old(reg).program@, self_fn),
        *final(reg).program == *old(reg).program,
{
    let n1 = remove_identity_lets(node);
    let n2 = simplify_boolean_ifs(n1);
    let n3 = convert_boolean_ifs_to_and_or(n2, reg, self_fn);
    collapse_branch_bindings(n3)
}

/// Whether a function of the program returns the unit value.
pub open spec fn returns_unit(p: Prog, id: FunctionID) -> bool {
    p.has(id) && p.func(id).signature.return_type == Ty::unit()
}

/// Whether the expression ends in the unit value, in a write or in a call that
/// returns it; what stands more than 100 levels down does not count.
pub open spec fn ends_unit(n: Node, p: Prog, depth: nat) -> bool
    decreases n,
{
    if depth > 100 {
        false
    } else {
        match n {
            Node::Tuple(elems) => elems.len() == 0,
            Node::WriteRef { .. } => true,
            Node::Call { function, .. } => returns_unit(p, function),
            Node::Let { body, .. } => ends_unit(*body, p, depth + 1),
            Node::If { then_branch, else_branch, .. } => ends_unit(*then_branch, p, depth + 1)
                && ends_unit(*else_branch, p, depth + 1),
            _ => false,
        }
    }
}

/// Whether the expression ends in the unit value, in a write or in a call that
/// returns it.
fn ends_with_unit_inner(node: &IRNode, reg: &VariableRegistry, depth: usize) -> (r: bool)
    requires
        depth <= 101,
    ensures
        r == ends_unit(node@, reg.program@, depth as nat),
    decreases node,
{
    if depth > 100 {
        return false;
    }
    match node {
        IRNode::Tuple(_) => is_empty_tuple(node),
        IRNode::WriteRef { .. } => true,
        IRNode::Call { function, .. } => match reg.program.function_slot(*function) {
            Some(k) => {
                let t = &reg.program.functions[k].1.signature.return_type;
                t.same(&Type::unit())
            },
            None => false,
        },
        IRNode::Let { body, .. } => ends_with_unit_inner(body, reg, depth + 1),
        IRNode::If { then_branch, else_branch, .. } => ends_with_unit_inner(
            then_branch,
            reg,
            depth + 1,
        ) && ends_with_unit_inner(else_branch, reg, depth + 1),
        _ => false,
    }
}

/// The expression with a value in the place of the unit value that it ends in, or
/// behind the write or call that it ends in.
pub open spec fn valued(n: Node, v: Node) -> Node
    decreases n,
{
    match n {
        Node::Tuple(elems) => if elems.len() == 0 {
            v
        } else {
            n
        },
        Node::WriteRef { .. } => Node::Let {
            pattern: Seq::empty(),
            value: Box::new(n),
            body: Box::new(v),
        },
        Node::Call { .. } => Node::Let {
            pattern: Seq::empty(),
            value: Box::new(n),
            body: Box::new(v),
        },
        Node::Let { pattern, value, body } => Node::Let {
            pattern,
            value,
            body: Box::new(valued(*body, v)),
        },
        Node::If { cond, then_branch, else_branch } => Node::If {
            cond,
            then_branch: Box::new(valued(*then_branch, v)),
            else_branch: Box::new(valued(*else_branch, v)),
        },
        _ => n,
    }
}

/// Puts a value in the place of the unit value that the expression ends in, or behind
/// the write or call that it ends in.
fn return_value(node: &IRNode, v: &IRNode) -> (r: IRNode)
    ensures
        r@ == valued(node@, v@),
    decreases node,
{
    match node {
        IRNode::Tuple(_) => if is_empty_tuple(node) {
            v.clone()
        } else {
            node.clone()
        },
        IRNode::WriteRef { .. } | IRNode::Call { .. } => {
            let r = IRNode::Let {
                pattern: Vec::new(),
                value: Box::new(node.clone()),
                body: Box::new(v.clone()),
            };
            assert(crate::ir::names(r->Let_pattern@) =~= Seq::empty());
            r
        },
        IRNode::Let { pattern, value, body } => IRNode::Let {
            pattern: crate::ir::clone_names(pattern),
            value: Box::new((**value).clone()),
            body: Box::new(return_value(body, v)),
        },
        IRNode::If { cond, then_branch, else_branch } => IRNode::If {
            cond: Box::new((**cond).clone()),
            then_branch: Box::new(return_value(then_branch, v)),
            else_branch: Box::new(return_value(else_branch, v)),
        },
        _ => node.clone(),
    }
}

/// What the deepest else side of a nest of branches is.
pub open spec fn deepest_else(n: Node) -> Node
    decreases n,
{
    match n {
        Node::If { else_branch, .. } => deepest_else(*else_branch),
        _ => n,
    }
}

/// What the deepest else side of a nest of branches is.
fn find_deepest_else(node: &IRNode) -> (r: &IRNode)
    ensures
        r@ == deepest_else(node@),
    decreases node,
{
    match node {
        IRNode::If { else_branch, .. } => find_deepest_else(else_branch),
        _ => node,
    }
}

/// Whether a branch ends in the unit value while the deepest else side behind it
/// returns a value.
pub open spec fn lacks_value(n: Node, p: Prog) -> bool {
    n matches Node::If { then_branch, else_branch, .. } && ends_unit(*then_branch, p, 0)
        && !ends_unit(deepest_else(*else_branch), p, 0)
}

/// A branch of a nest with the value of the deepest else side behind its effects,
/// where it ends in the unit value.
pub open spec fn value_returned(n: Node, p: Prog) -> Node {
    match n {
        Node::If { cond, then_branch, else_branch } => if lacks_value(n, p) {
            Node::If {
                cond,
                then_branch: Box::new(valued(*then_branch, deepest_else(*else_branch))),
                else_branch,
            }
        } else {
            n
        },
        _ => n,
    }
}

/// The step that gives a branch of a nest the value of the nest.
struct ReturnValue<'a, 'b> {
    reg: &'b VariableRegistry<'a>,
}

impl<'a, 'b> Rewrite for ReturnValue<'a, 'b> {
    closed spec fn accepts(&self, n: Node) -> bool {
        true
    }

    closed spec fn step(&self, n: Node) -> Node {
        value_returned(n, self.reg.program@)
    }

    fn apply(&self, n: IRNode) -> (r: IRNode) {
        match n {
            IRNode::If { cond, then_branch, else_branch } => {
                let v = find_deepest_else(&else_branch);
                if !ends_with_unit_inner(&then_branch, self.reg, 0) || ends_with_unit_inner(
                    v,
                    self.reg,
                    0,
                ) {
                    return IRNode::If { cond, then_branch, else_branch };
                }
                let first = return_value(&then_branch, v);
                IRNode::If { cond, then_branch: Box::new(first), else_branch }
            },
            other => other,
        }
    }
}

/// The expression with a value in every branch of a nest that returns one.
pub open spec fn values_returned(n: Node, p: Prog) -> Node {
    n.map(|m: Node| value_returned(m, p))
}

/// Gives each branch of a nest that ends in the unit value the value that the deepest
/// else side returns.
pub fn flatten_sequential_ifs(node: IRNode, reg: &mut VariableRegistry) -> (r: IRNode)
    ensures
        r@ == values_returned(node@, old(reg).program@),
        *final(reg) == *old(reg),
{
    let t = ReturnValue { reg: &*reg };
    proof {
        node@.lemma_map_accepts_all(|n: Node| t.step(n), |n: Node| t.accepts(n));
        assert((|n: Node| t.step(n)) =~= (|n: Node| value_returned(n, reg.program@)));
    }
    map_nodes(&node, &t)
}

/// What ends in the unit value from a deeper level on does so from a higher one.
proof fn lemma_ends_unit_higher(n: Node, p: Prog, d: nat, e: nat)
    requires
        d <= e,
        ends_unit(n, p, e),
    ensures
        ends_unit(n, p, d),
    decreases n,
{
    match n {
        Node::Let { body, .. } => {
            lemma_ends_unit_higher(*body, p, d + 1, e + 1);
        },
        Node::If { then_branch, else_branch, .. } => {
            lemma_ends_unit_higher(*then_branch, p, d + 1, e + 1);
            lemma_ends_unit_higher(*else_branch, p, d + 1, e + 1);
        },
        _ => {},
    }
}

/// What has a value in the place of the unit value does not end in the unit value.
proof fn lemma_valued_has_value(n: Node, v: Node, p: Prog, d: nat)
    requires
        ends_unit(n, p, d),
        !ends_unit(v, p, 0),
    ensures
        forall|e: nat| !#[trigger] ends_unit(valued(n, v), p, e),
    decreases n,
{
    assert forall|e: nat| !#[trigger] ends_unit(v, p, e) by {
        if ends_unit(v, p, e) {
            lemma_ends_unit_higher(v, p, 0, e);
        }
    }
    match n {
        Node::Let { body, .. } => {
            lemma_valued_has_value(*body, v, p, d + 1);
        },
        Node::If { then_branch, else_branch, .. } => {
            lemma_valued_has_value(*then_branch, v, p, d + 1);
            lemma_valued_has_value(*else_branch, v, p, d + 1);
        },
        _ => {},
    }
    assert forall|e: nat| !#[trigger] ends_unit(valued(n, v), p, e) by {
        match n {
            Node::WriteRef { .. } => {
                assert(!ends_unit(v, p, e + 1));
            },
            Node::Call { .. } => {
                assert(!ends_unit(v, p, e + 1));
            },
            Node::Let { body, .. } => {
                assert(!ends_unit(valued(*body, v), p, e + 1));
            },
            Node::If { then_branch, else_branch, .. } => {
                assert(!ends_unit(valued(*then_branch, v), p, e + 1));
            },
            _ => {},
        }
    }
}

/// Putting a value behind effects makes no branch that lacks one.
proof fn lemma_valued_lacks_nothing(n: Node, v: Node, p: Prog, d: nat)
    requires
        ends_unit(n, p, d),
        !ends_unit(v, p, 0),
        !n.any(|m: Node| lacks_value(m, p)),
        !v.any(|m: Node| lacks_value(m, p)),
    ensures
        !valued(n, v).any(|m: Node| lacks_value(m, p)),
    decreases n,
{
    let q = |m: Node| lacks_value(m, p);
    let r = valued(n, v);
    match n {
        Node::WriteRef { .. } => {
            assert(r.kids() =~= seq![n, v]);
            assert(!r.any_kid(q));
        },
        Node::Call { .. } => {
            assert(r.kids() =~= seq![n, v]);
            assert(!r.any_kid(q));
        },
        Node::Let { pattern, value, body } => {
            assert(n.kids()[0] == *value && n.kids()[1] == *body);
            lemma_valued_lacks_nothing(*body, v, p, d + 1);
            assert(r.kids() =~= seq![*value, valued(*body, v)]);
            assert(!r.any_kid(q));
        },
        Node::If { cond, then_branch, else_branch } => {
            assert(n.kids()[0] == *cond && n.kids()[1] == *then_branch && n.kids()[2]
                == *else_branch);
            lemma_valued_lacks_nothing(*then_branch, v, p, d + 1);
            lemma_valued_lacks_nothing(*else_branch, v, p, d + 1);
            lemma_valued_has_value(*then_branch, v, p, d + 1);
            assert(r.kids() =~= seq![*cond, valued(*then_branch, v), valued(*else_branch, v)]);
            assert(!ends_unit(valued(*then_branch, v), p, 0));
            assert(!r.any_kid(q));
        },
        _ => {},
    }
}

/// Nothing is changed inside a deepest else side that is not inside the nest.
proof fn lemma_deepest_else_inside(n: Node, q: spec_fn(Node) -> bool)
    requires
        !n.any(q),
    ensures
        !deepest_else(n).any(q),
    decreases n,
{
    if let Node::If { else_branch, .. } = n {
        assert(n.kids()[2] == *else_branch);
        lemma_deepest_else_inside(*else_branch, q);
    }
}

/// No branch is left that ends in the unit value before a deepest else side that
/// returns a value, so a second time nothing changes.
pub proof fn law_every_branch_returns_the_value(n: Node, p: Prog)
    ensures
        !values_returned(n, p).any(|m: Node| lacks_value(m, p)),
        values_returned(values_returned(n, p), p) == values_returned(n, p),
{
    let f = |m: Node| value_returned(m, p);
    let q = |m: Node| lacks_value(m, p);
    assert forall|m: Node| !m.any_kid(q) implies !(#[trigger] f(m)).any(q) by {
        if lacks_value(m, p) {
            if let Node::If { cond, then_branch, else_branch } = m {
                assert(m.kids()[0] == *cond);
                assert(m.kids()[1] == *then_branch);
                assert(m.kids()[2] == *else_branch);
                let v = deepest_else(*else_branch);
                lemma_deepest_else_inside(*else_branch, q);
                lemma_valued_lacks_nothing(*then_branch, v, p, 0);
                lemma_valued_has_value(*then_branch, v, p, 0);
                let r = f(m);
                assert(r.kids() =~= seq![*cond, valued(*then_branch, v), *else_branch]);
                assert(!ends_unit(valued(*then_branch, v), p, 0));
                assert(!r.any_kid(q));
            }
        }
    }
    n.lemma_map_clears(f, q);
    values_returned(n, p).lemma_map_unchanged(f, q);
}

/// What the collapsing of bindings returns has nothing left to collapse.
pub proof fn law_collapsed_is_stable(n: Node)
    ensures
        collapsed_once(fully_collapsed(n)) == fully_collapsed(n),
    decreases n.weight(crate::measure::one_each()),
{
    if collapsed_once(n) != n {
        lemma_collapsed_smaller(n);
        law_collapsed_is_stable(collapsed_once(n));
    }
}

/// No binding of a variable to itself is left.
pub proof fn law_no_self_binding_is_left(n: Node)
    ensures
        !self_bindings_removed(n).any(|m: Node| is_self_binding(m)),
{
    let f = |m: Node| without_self_binding(m);
    let p = |m: Node| is_self_binding(m);
    assert forall|m: Node| !m.any_kid(p) implies !(#[trigger] f(m)).any(p) by {
        if is_self_binding(m) {
            assert(m.kids()[1] == *m->Let_body);
        }
    }
    n.lemma_map_clears(f, p);
}

/// Whether one side of a branch ends in the unit value while the other can be boolean.
pub open spec fn has_mixed_sides(n: Node) -> bool {
    n matches Node::If { then_branch, else_branch, .. } && ((unit_valued(*then_branch)
        && can_be_bool(*else_branch)) || (unit_valued(*else_branch) && can_be_bool(*then_branch)))
}

/// What ends in the unit value cannot be boolean.
proof fn lemma_unit_is_no_bool(n: Node)
    requires
        unit_valued(n),
    ensures
        !can_be_bool(n),
    decreases n,
{
    if let Node::Let { body, .. } = n {
        lemma_unit_is_no_bool(*body);
    }
}

/// No branch is left with a side that ends in the unit value beside one that can be
/// boolean.
pub proof fn law_no_unit_beside_a_bool_is_left(n: Node)
    ensures
        !n.map(|m: Node| with_bool_sides(m)).any(|m: Node| has_mixed_sides(m)),
{
    let f = |m: Node| with_bool_sides(m);
    let p = |m: Node| has_mixed_sides(m);
    assert forall|m: Node| !m.any_kid(p) implies !(#[trigger] f(m)).any(p) by {
        if let Node::If { cond, then_branch, else_branch } = m {
            let no = Node::Const(Lit::Bool(false));
            assert(!no.any(p)) by {
                assert(no.kids().len() == 0);
            }
            if unit_valued(*then_branch) {
                lemma_unit_is_no_bool(*then_branch);
            }
            if unit_valued(*else_branch) {
                lemma_unit_is_no_bool(*else_branch);
            }
            assert(m.kids()[0] == *cond);
            assert(m.kids()[1] == *then_branch);
            assert(m.kids()[2] == *else_branch);
            let r = f(m);
            assert(r.kids() =~= seq![
                *cond,
                bool_side(*then_branch, *else_branch),
                bool_side(*else_branch, *then_branch),
            ]);
            assert forall|i: int| 0 <= i < r.kids().len() implies !(#[trigger] r.kids()[i]).any(
                p,
            ) by {
                if i == 0 {
                } else if i == 1 {
                } else {
                    assert(i == 2);
                }
            }
        }
    }
    n.lemma_map_clears(f, p);
}

/// An expression without bindings of variables to themselves has the value that it had.
pub proof fn law_removing_self_bindings_keeps_the_value(
    n: Node,
    env: crate::meaning::Env,
    m: crate::meaning::Model,
)
    ensures
        crate::meaning::eval(self_bindings_removed(n), env, m) == crate::meaning::eval(n, env, m),
    decreases n,
{
    let f = |k: Node| without_self_binding(k);
    let ks = n.mapped_kids(f);
    let k = n.with_kids(ks);
    n.lemma_kids_decrease();
    if n is Var {
        assert(k == n);
    } else {
        assert(crate::written_meaning::same_parts(n, ks, env, env, m)) by {
            assert forall|i: int, v: crate::meaning::Val, vs: Seq<crate::meaning::Val>|
                0 <= i < ks.len() implies crate::meaning::eval(
                ks[i],
                #[trigger] crate::written_meaning::around(n, i, env, v, vs),
                m,
            ) == crate::meaning::eval(
                n.kids()[i],
                crate::written_meaning::around(n, i, env, v, vs),
                m,
            ) by {
                law_removing_self_bindings_keeps_the_value(
                    n.kids()[i],
                    crate::written_meaning::around(n, i, env, v, vs),
                    m,
                );
                assert(self_bindings_removed(n.kids()[i]) == n.kids()[i].map(f));
            }
        }
        crate::written_meaning::lemma_rebuilt(n, ks, env, env, m);
    }
    if is_self_binding(k) {
        if let Node::Let { pattern, value, body } = k {
            let v = crate::meaning::eval(*value, env, m);
            let inner = crate::meaning::bound(env, pattern, v);
            assert(crate::meaning::agree(*body, inner, env)) by {
                assert forall|x: Name| #[trigger] body.free(x) && x != "_"@ implies inner(x)
                    == env(x) by {}
            }
            crate::meaning::lemma_agree(*body, inner, env, m);
        }
    }
}

/// The truth of what is known to be a boolean literal.
proof fn lemma_bool_lit_means(n: Node, env: crate::meaning::Env, m: crate::meaning::Model)
    ensures
        bool_lit(n) matches Some(b) ==> crate::meaning::eval(n, env, m)
            == crate::meaning::Val::Bool(b),
    decreases n,
{
    if let Node::Let { pattern, value, body } = n {
        let inner = crate::meaning::bound(env, pattern, crate::meaning::eval(*value, env, m));
        lemma_bool_lit_means(*body, inner, m);
    }
}

/// A condition in the place of a branch, and a conjunction or a disjunction in the place of
/// a branch, are true where the branch is.
pub proof fn law_conditions_in_place_of_branches_keep_the_truth(
    cond: Node,
    t: Node,
    e: Node,
    vars: Vars,
    p: Prog,
    own: Option<FunctionID>,
    env: crate::meaning::Env,
    m: crate::meaning::Model,
)
    ensures
        ({
            let n = Node::If {
                cond: Box::new(cond),
                then_branch: Box::new(t),
                else_branch: Box::new(e),
            };
            let truth = crate::meaning::truth(crate::meaning::eval(n, env, m));
            &&& crate::meaning::truth(crate::meaning::eval(condition_of(n), env, m)) == truth
            &&& crate::meaning::truth(
                crate::meaning::eval(joined_branch(cond, t, e, vars, p, own), env, m),
            ) == truth
        }),
{
    lemma_bool_lit_means(t, env, m);
    lemma_bool_lit_means(e, env, m);
    let joined = joined_branch(cond, t, e, vars, p, own);
    if let Node::Const(Lit::Bool(b)) = joined {
        assert(crate::meaning::eval(joined, env, m) == crate::meaning::Val::Bool(b));
    }
}

} // verus!
