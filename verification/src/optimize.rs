//! Optimization until nothing changes.
//!
//! One pass inlines temporaries, drops dead code, simplifies, cleans up and folds
//! early returns. Passes run until one leaves the outline of the expression as it
//! was, or the bound on their number is reached.

use crate::cleanup::{cleanup, flatten_sequential_ifs};
use crate::dead_code_removal::remove_dead_code;
use crate::early_return::fold_early_returns;
use crate::ir::{same_names, IRNode, Node, UnOp};
use crate::logical_simplification::simplify;
use crate::program::Prog;
use crate::scope::{VariableRegistry, Vars};
use crate::types::{FunctionID, Name};
use vstd::prelude::*;

verus! {

/// The number of the last pass that may run, from zero on.
pub const LAST_PASS: usize = 50;

/// How temporaries are inlined. For the conditions under which a function aborts,
/// `aborts` is set.
pub trait TempInliner {
    /// The expression with temporaries inlined, and the scope after it.
    spec fn inlined(&self, n: Node, vars: Vars, p: Prog, aborts: bool) -> (Node, Vars);

    /// Inlines temporaries.
    fn inline_temps(&self, node: IRNode, reg: &mut VariableRegistry, aborts: bool) -> (r: IRNode)
        ensures
            (r@, final(reg)@) == self.inlined(node@, old(reg)@, old(reg).program@, aborts),
            *final(reg).program == *old(reg).program,
    ;
}

/// Every temporary stays.
pub struct KeepTemps;

impl TempInliner for KeepTemps {
    open spec fn inlined(&self, n: Node, vars: Vars, p: Prog, aborts: bool) -> (Node, Vars) {
        (n, vars)
    }

    fn inline_temps(&self, node: IRNode, reg: &mut VariableRegistry, aborts: bool) -> (r: IRNode) {
        node
    }
}

/// Whether two unary operators are of one kind.
pub open spec fn same_unary(a: UnOp, b: UnOp) -> bool {
    match (a, b) {
        (UnOp::Not, UnOp::Not) => true,
        (UnOp::BitNot, UnOp::BitNot) => true,
        (UnOp::Cast(_), UnOp::Cast(_)) => true,
        _ => false,
    }
}

/// Whether two expressions look the same in outline: bindings, branches, calls,
/// tuples, operators, variables and literals are compared throughout; below any
/// other kind of expression nothing is.
pub open spec fn looks_same(a: Node, b: Node) -> bool
    decreases a,
{
    match (a, b) {
        (Node::Var(x), Node::Var(y)) => x == y,
        (Node::Const(x), Node::Const(y)) => x == y,
        (
            Node::Let { pattern: p, value: v, body: e },
            Node::Let { pattern: q, value: w, body: f },
        ) => p == q && looks_same(*v, *w) && looks_same(*e, *f),
        (
            Node::If { cond: c, then_branch: t, else_branch: e },
            Node::If { cond: d, then_branch: u, else_branch: f },
        ) => looks_same(*c, *d) && looks_same(*t, *u) && looks_same(*e, *f),
        (
            Node::Call { function: f, type_args: s, args: x },
            Node::Call { function: g, type_args: t, args: y },
        ) => f == g && s.len() == t.len() && all_look_same(x, y),
        (Node::Tuple(x), Node::Tuple(y)) => all_look_same(x, y),
        (Node::BinOp { op: o, lhs: l, rhs: r }, Node::BinOp { op: p, lhs: m, rhs: s }) => o == p
            && looks_same(*l, *m) && looks_same(*r, *s),
        (Node::UnOp { op: o, operand: x }, Node::UnOp { op: p, operand: y }) => same_unary(o, p)
            && looks_same(*x, *y),
        (Node::BitOp(_), Node::BitOp(_)) => true,
        (Node::Pack { .. }, Node::Pack { .. }) => true,
        (Node::Field { .. }, Node::Field { .. }) => true,
        (Node::Unpack { .. }, Node::Unpack { .. }) => true,
        (Node::Match { .. }, Node::Match { .. }) => true,
        (Node::MatchOption { .. }, Node::MatchOption { .. }) => true,
        (Node::UpdateField { .. }, Node::UpdateField { .. }) => true,
        (Node::UpdateVec { .. }, Node::UpdateVec { .. }) => true,
        (Node::ReadRef(_), Node::ReadRef(_)) => true,
        (Node::WriteRef { .. }, Node::WriteRef { .. }) => true,
        (Node::MutableBorrow { .. }, Node::MutableBorrow { .. }) => true,
        (Node::WriteBack { .. }, Node::WriteBack { .. }) => true,
        (Node::MutableCompose { .. }, Node::MutableCompose { .. }) => true,
        (Node::Quantifier { .. }, Node::Quantifier { .. }) => true,
        (Node::ToProp(_), Node::ToProp(_)) => true,
        (Node::ToBool(_), Node::ToBool(_)) => true,
        (Node::OptionSome(_), Node::OptionSome(_)) => true,
        (Node::OptionNone, Node::OptionNone) => true,
        (Node::Inhabited, Node::Inhabited) => true,
        (Node::Abort { .. }, Node::Abort { .. }) => true,
        (Node::MoveAbortValue { .. }, Node::MoveAbortValue { .. }) => true,
        (Node::ArithOverflowCheck { .. }, Node::ArithOverflowCheck { .. }) => true,
        _ => false,
    }
}

/// Whether two lists of expressions look the same in outline.
pub open spec fn all_look_same(a: Seq<Node>, b: Seq<Node>) -> bool
    decreases a,
{
    a.len() == b.len() && forall|i: int|
        0 <= i < a.len() && i < b.len() ==> looks_same(#[trigger] a[i], b[i])
}

/// Whether two unary operators are of one kind.
fn is_same_unary(a: &UnOp, b: &UnOp) -> (r: bool)
    ensures
        r == same_unary(*a, *b),
{
    match (a, b) {
        (UnOp::Not, UnOp::Not) => true,
        (UnOp::BitNot, UnOp::BitNot) => true,
        (UnOp::Cast(_), UnOp::Cast(_)) => true,
        _ => false,
    }
}

/// Whether two expressions look the same in outline.
#[verifier::rlimit(60)]
pub fn same_outline(a: &IRNode, b: &IRNode) -> (r: bool)
    ensures
        r == looks_same(a@, b@),
    decreases a,
{
    match (a, b) {
        (IRNode::Var(x), IRNode::Var(y)) => *x == *y,
        (IRNode::Const(x), IRNode::Const(y)) => x.same(y),
        (
            IRNode::Let { pattern: p, value: v, body: e },
            IRNode::Let { pattern: q, value: w, body: f },
        ) => same_names(p, q) && same_outline(v, w) && same_outline(e, f),
        (
            IRNode::If { cond: c, then_branch: t, else_branch: e },
            IRNode::If { cond: d, then_branch: u, else_branch: f },
        ) => same_outline(c, d) && same_outline(t, u) && same_outline(e, f),
        (
            IRNode::Call { function: f, type_args: s, args: x },
            IRNode::Call { function: g, type_args: t, args: y },
        ) => {
            assert(crate::types::Type::views(s@).len() == s@.len());
            assert(crate::types::Type::views(t@).len() == t@.len());
            *f == *g && s.len() == t.len() && same_outlines(x, y)
        },
        (IRNode::Tuple(x), IRNode::Tuple(y)) => same_outlines(x, y),
        (
            IRNode::BinOp { op: o, lhs: l, rhs: r },
            IRNode::BinOp { op: p, lhs: m, rhs: s },
        ) => *o == *p && same_outline(l, m) && same_outline(r, s),
        (
            IRNode::UnOp { op: o, operand: x },
            IRNode::UnOp { op: p, operand: y },
        ) => is_same_unary(o, p) && same_outline(x, y),
        (IRNode::BitOp(_), IRNode::BitOp(_)) => true,
        (IRNode::Pack { .. }, IRNode::Pack { .. }) => true,
        (IRNode::Field { .. }, IRNode::Field { .. }) => true,
        (IRNode::Unpack { .. }, IRNode::Unpack { .. }) => true,
        (IRNode::Match { .. }, IRNode::Match { .. }) => true,
        (IRNode::MatchOption { .. }, IRNode::MatchOption { .. }) => true,
        (IRNode::UpdateField { .. }, IRNode::UpdateField { .. }) => true,
        (IRNode::UpdateVec { .. }, IRNode::UpdateVec { .. }) => true,
        (IRNode::ReadRef(_), IRNode::ReadRef(_)) => true,
        (IRNode::WriteRef { .. }, IRNode::WriteRef { .. }) => true,
        (IRNode::MutableBorrow { .. }, IRNode::MutableBorrow { .. }) => true,
        (IRNode::WriteBack { .. }, IRNode::WriteBack { .. }) => true,
        (IRNode::MutableCompose { .. }, IRNode::MutableCompose { .. }) => true,
        (IRNode::Quantifier { .. }, IRNode::Quantifier { .. }) => true,
        (IRNode::ToProp(_), IRNode::ToProp(_)) => true,
        (IRNode::ToBool(_), IRNode::ToBool(_)) => true,
        (IRNode::OptionSome(_), IRNode::OptionSome(_)) => true,
        (IRNode::OptionNone, IRNode::OptionNone) => true,
        (IRNode::Inhabited, IRNode::Inhabited) => true,
        (IRNode::Abort { .. }, IRNode::Abort { .. }) => true,
        (IRNode::MoveAbortValue { .. }, IRNode::MoveAbortValue { .. }) => true,
        (IRNode::ArithOverflowCheck { .. }, IRNode::ArithOverflowCheck { .. }) => true,
        _ => false,
    }
}

/// Whether two lists of expressions look the same in outline.
fn same_outlines(a: &Vec<IRNode>, b: &Vec<IRNode>) -> (r: bool)
    ensures
        r == all_look_same(IRNode::views(a@), IRNode::views(b@)),
    decreases a,
{
    let ghost x = IRNode::views(a@);
    let ghost y = IRNode::views(b@);
    assert(x.len() == a@.len() && y.len() == b@.len());
    if a.len() != b.len() {
        return false;
    }
    let mut i: usize = 0;
    while i < a.len()
        invariant
            i <= a.len(),
            a.len() == b.len(),
            x == IRNode::views(a@),
            y == IRNode::views(b@),
            x.len() == a@.len(),
            y.len() == b@.len(),
            forall|j: int| 0 <= j < i ==> looks_same(#[trigger] x[j], y[j]),
        decreases a.len() - i,
    {
        assert(x[i as int] == a@[i as int]@ && y[i as int] == b@[i as int]@);
        if !same_outline(&a[i], &b[i]) {
            return false;
        }
        i += 1;
    }
    true
}

/// An expression after one pass, and the scope after it.
#[verifier::opaque]
pub open spec fn passed<I: TempInliner>(
    inliner: I,
    n: Node,
    vars: Vars,
    p: Prog,
    aborts: bool,
    own: Option<FunctionID>,
) -> (Node, Vars) {
    let (inlined, vars1) = inliner.inlined(n, vars, p, aborts);
    let live = inlined.map(
        |k: Node| crate::dead_code_removal::without_dead_let(k, |x: Name| inlined.uses(x)),
    ).map(|k: Node| crate::dead_code_removal::with_blanks(k, |x: Name| inlined.uses(x)));
    let simpler = crate::logical_simplification::fully_simplified(live);
    let (clean, vars2) = crate::cleanup::cleaned(simpler, vars1, p, own);
    (crate::early_return::aborts_stripped(crate::early_return::returns_folded(clean)), vars2)
}

/// An expression after so many passes, and the scope after it.
pub open spec fn after_passes<I: TempInliner>(
    inliner: I,
    n: Node,
    vars: Vars,
    p: Prog,
    aborts: bool,
    own: Option<FunctionID>,
    count: nat,
) -> (Node, Vars)
    decreases count,
{
    if count == 0 {
        (n, vars)
    } else {
        let (m, vars1) = after_passes(inliner, n, vars, p, aborts, own, (count - 1) as nat);
        passed(inliner, m, vars1, p, aborts, own)
    }
}

/// Whether the pass with this number leaves the outline as it was.
pub open spec fn settles<I: TempInliner>(
    inliner: I,
    n: Node,
    vars: Vars,
    p: Prog,
    aborts: bool,
    own: Option<FunctionID>,
    k: nat,
) -> bool {
    looks_same(
        after_passes(inliner, n, vars, p, aborts, own, k).0,
        after_passes(inliner, n, vars, p, aborts, own, k + 1).0,
    )
}

/// How many passes run, from the `k`th pass on: up to the first that leaves the
/// outline as it was, and no more than the bound allows.
pub open spec fn pass_count<I: TempInliner>(
    inliner: I,
    n: Node,
    vars: Vars,
    p: Prog,
    aborts: bool,
    own: Option<FunctionID>,
    k: nat,
) -> nat
    decreases LAST_PASS - k,
{
    if k >= LAST_PASS || settles(inliner, n, vars, p, aborts, own, k) {
        k + 1
    } else {
        pass_count(inliner, n, vars, p, aborts, own, k + 1)
    }
}

/// An optimized expression, and the scope after it.
pub open spec fn optimized<I: TempInliner>(
    inliner: I,
    n: Node,
    vars: Vars,
    p: Prog,
    aborts: bool,
    own: Option<FunctionID>,
) -> (Node, Vars) {
    let count = pass_count(inliner, n, vars, p, aborts, own, 0);
    let (m, vars1) = after_passes(inliner, n, vars, p, aborts, own, count);
    (crate::cleanup::values_returned(m, p), vars1)
}

/// Optimizes an expression.
pub fn optimize<I: TempInliner>(node: IRNode, reg: &mut VariableRegistry, inliner: &I) -> (r: IRNode)
    ensures
        (r@, final(reg)@) == optimized(
            *inliner,
            node@,
            old(reg)@,
            old(reg).program@,
            false,
            None,
        ),
        *final(reg).program == *old(reg).program,
{
    optimize_with(node, reg, false, None, inliner)
}

/// Optimizes an expression: the conditions under which a function aborts where
/// `aborts` is set. Calls of the function itself, where it is given, are known.
pub fn optimize_with<I: TempInliner>(
    node: IRNode,
    reg: &mut VariableRegistry,
    aborts: bool,
    self_fn: Option<usize>,
    inliner: &I,
) -> (r: IRNode)
    ensures
        (r@, final(reg)@) == optimized(
            *inliner,
            node@,
            old(reg)@,
            old(reg).program@,
            aborts,
            self_fn,
        ),
        *final(reg).program == *old(reg).program,
{
    optimize_settling(node, reg, aborts, self_fn, inliner).0
}

/// Optimizes an expression, as [`optimize_with`] does, and says whether the last pass
/// left the outline as it was; otherwise the passes were cut off at the bound.
pub fn optimize_settling<I: TempInliner>(
    node: IRNode,
    reg: &mut VariableRegistry,
    aborts: bool,
    self_fn: Option<usize>,
    inliner: &I,
) -> (r: (IRNode, bool))
    ensures
        (r.0@, final(reg)@) == optimized(
            *inliner,
            node@,
            old(reg)@,
            old(reg).program@,
            aborts,
            self_fn,
        ),
        r.1 == settles(
            *inliner,
            node@,
            old(reg)@,
            old(reg).program@,
            aborts,
            self_fn,
            (pass_count(*inliner, node@, old(reg)@, old(reg).program@, aborts, self_fn, 0) - 1) as nat,
        ),
        *final(reg).program == *old(reg).program,
{
    let ghost start = node@;
    let ghost vars = reg@;
    let ghost p = reg.program@;
    let mut current = node;
    let mut i: usize = 0;
    let mut settled = false;
    loop
        invariant_except_break
            i <= LAST_PASS,
            start == node@,
            vars == old(reg)@,
            p == old(reg).program@,
            *reg.program == *old(reg).program,
            (current@, reg@) == after_passes(
                *inliner,
                start,
                vars,
                p,
                aborts,
                self_fn,
                i as nat,
            ),
            pass_count(*inliner, start, vars, p, aborts, self_fn, 0) == pass_count(
                *inliner,
                start,
                vars,
                p,
                aborts,
                self_fn,
                i as nat,
            ),
        ensures
            *reg.program == *old(reg).program,
            (current@, reg@) == after_passes(
                *inliner,
                start,
                vars,
                p,
                aborts,
                self_fn,
                pass_count(*inliner, start, vars, p, aborts, self_fn, 0),
            ),
            settled == settles(
                *inliner,
                start,
                vars,
                p,
                aborts,
                self_fn,
                (pass_count(*inliner, start, vars, p, aborts, self_fn, 0) - 1) as nat,
            ),
        decreases LAST_PASS - i,
    {
        let before = current.clone();
        current = optimize_single_pass(current, reg, aborts, self_fn, inliner);
        assert((current@, reg@) == after_passes(
            *inliner,
            start,
            vars,
            p,
            aborts,
            self_fn,
            (i + 1) as nat,
        ));
        settled = same_outline(&before, &current);
        if settled || i >= LAST_PASS {
            break;
        }
        i += 1;
    }
    (flatten_sequential_ifs(current, reg), settled)
}

/// Runs one pass.
fn optimize_single_pass<I: TempInliner>(
    node: IRNode,
    reg: &mut VariableRegistry,
    aborts: bool,
    self_fn: Option<usize>,
    inliner: &I,
) -> (r: IRNode)
    ensures
        (r@, final(reg)@) == passed(
            *inliner,
            node@,
            old(reg)@,
            old(reg).program@,
            aborts,
            self_fn,
        ),
        *final(reg).program == *old(reg).program,
{
    reveal(passed);
    let inlined = inliner.inline_temps(node, reg, aborts);
    let live = remove_dead_code(inlined);
    let simpler = simplify(live);
    let clean = cleanup(simpler, reg, self_fn);
    fold_early_returns(clean)
}

/// The passes stop at the first that leaves the outline as it was, or at the bound;
/// at least one runs, and at most one more than the bound.
pub proof fn law_passes_settle_or_run_out<I: TempInliner>(
    inliner: I,
    n: Node,
    vars: Vars,
    p: Prog,
    aborts: bool,
    own: Option<FunctionID>,
)
    ensures
        ({
            let count = pass_count(inliner, n, vars, p, aborts, own, 0);
            &&& 1 <= count <= LAST_PASS + 1
            &&& count <= LAST_PASS ==> settles(
                inliner,
                n,
                vars,
                p,
                aborts,
                own,
                (count - 1) as nat,
            )
            &&& forall|j: nat|
                j + 1 < count ==> !#[trigger] settles(inliner, n, vars, p, aborts, own, j)
        }),
{
    lemma_pass_count(inliner, n, vars, p, aborts, own, 0);
}

/// What the number of passes is, from the `k`th pass on.
proof fn lemma_pass_count<I: TempInliner>(
    inliner: I,
    n: Node,
    vars: Vars,
    p: Prog,
    aborts: bool,
    own: Option<FunctionID>,
    k: nat,
)
    requires
        k <= LAST_PASS,
    ensures
        ({
            let count = pass_count(inliner, n, vars, p, aborts, own, k);
            &&& k + 1 <= count <= LAST_PASS + 1
            &&& count <= LAST_PASS ==> settles(
                inliner,
                n,
                vars,
                p,
                aborts,
                own,
                (count - 1) as nat,
            )
            &&& forall|j: nat|
                k <= j && j + 1 < count ==> !#[trigger] settles(inliner, n, vars, p, aborts, own, j)
        }),
    decreases LAST_PASS - k,
{
    if k < LAST_PASS && !settles(inliner, n, vars, p, aborts, own, k) {
        lemma_pass_count(inliner, n, vars, p, aborts, own, k + 1);
    }
}

/// An expression looks the same as itself.
proof fn lemma_looks_same(n: Node)
    ensures
        looks_same(n, n),
    decreases n,
{
    match n {
        Node::Let { value, body, .. } => {
            lemma_looks_same(*value);
            lemma_looks_same(*body);
            assert(looks_same(n, n));
        },
        Node::If { cond, then_branch, else_branch } => {
            lemma_looks_same(*cond);
            lemma_looks_same(*then_branch);
            lemma_looks_same(*else_branch);
            assert(looks_same(n, n));
        },
        Node::Call { args, .. } => {
            assert forall|i: int| 0 <= i < args.len() implies looks_same(
                #[trigger] args[i],
                args[i],
            ) by {
                lemma_looks_same(args[i]);
            }
            assert(all_look_same(args, args));
            assert(looks_same(n, n));
        },
        Node::Tuple(elems) => {
            assert forall|i: int| 0 <= i < elems.len() implies looks_same(
                #[trigger] elems[i],
                elems[i],
            ) by {
                lemma_looks_same(elems[i]);
            }
            assert(all_look_same(elems, elems));
            assert(looks_same(n, n));
        },
        Node::BinOp { lhs, rhs, .. } => {
            lemma_looks_same(*lhs);
            lemma_looks_same(*rhs);
            assert(looks_same(n, n));
        },
        Node::UnOp { operand, .. } => {
            lemma_looks_same(*operand);
            assert(looks_same(n, n));
        },
        _ => {
            assert(looks_same(n, n));
        },
    }
}

/// Where a pass leaves an expression and its scope as they are, optimizing runs that
/// one pass and only gives branches the value of their nest.
pub proof fn law_settled_takes_one_pass<I: TempInliner>(
    inliner: I,
    n: Node,
    vars: Vars,
    p: Prog,
    aborts: bool,
    own: Option<FunctionID>,
)
    requires
        passed(inliner, n, vars, p, aborts, own) == (n, vars),
    ensures
        pass_count(inliner, n, vars, p, aborts, own, 0) == 1,
        optimized(inliner, n, vars, p, aborts, own) == (
            crate::cleanup::values_returned(n, p),
            vars,
        ),
{
    reveal_with_fuel(after_passes, 2);
    lemma_looks_same(n);
    assert(settles(inliner, n, vars, p, aborts, own, 0));
}

} // verus!
