//! Flattening of deeply nested conditionals: chains of branches that end in `true`
//! become disjunctions.

use crate::early_return::is_empty_tuple;
use crate::ir::{clone_names, BinOp, Const, IRNode, Lit, Node, UnOp};
use crate::traverse::name_is;
use crate::types::{Name, TempId};
use vstd::prelude::*;

verus! {

/// The depth of branches up to which nothing is flattened.
pub const MAX_IF_DEPTH: usize = 15;

/// The number of conditions that are joined at a time.
pub const CHUNK_SIZE: usize = 4;

/// The larger of two numbers.
pub open spec fn larger(a: nat, b: nat) -> nat {
    if a >= b {
        a
    } else {
        b
    }
}

/// How deep branches are nested in an expression's branches and bindings.
pub open spec fn if_depth(n: Node) -> nat
    decreases n,
{
    match n {
        Node::If { then_branch, else_branch, .. } => 1 + larger(
            if_depth(*then_branch),
            if_depth(*else_branch),
        ),
        Node::Let { value, body, .. } => larger(if_depth(*value), if_depth(*body)),
        _ => 0,
    }
}

/// Whether branches are nested deeper than given.
fn is_deeper(node: &IRNode, limit: usize) -> (r: bool)
    ensures
        r == (if_depth(node@) > limit),
    decreases node,
{
    match node {
        IRNode::If { then_branch, else_branch, .. } => limit == 0 || is_deeper(
            then_branch,
            limit - 1,
        ) || is_deeper(else_branch, limit - 1),
        IRNode::Let { value, body, .. } => is_deeper(value, limit) || is_deeper(body, limit),
        _ => false,
    }
}

/// Whether the expression is `true` behind any bindings.
pub open spec fn is_true(n: Node) -> bool
    decreases n,
{
    match n {
        Node::Const(Lit::Bool(b)) => b,
        Node::Let { body, .. } => is_true(*body),
        _ => false,
    }
}

/// Whether the expression is `true` behind any bindings.
fn is_true_const(node: &IRNode) -> (r: bool)
    ensures
        r == is_true(node@),
    decreases node,
{
    match node {
        IRNode::Const(Const::Bool(b)) => *b,
        IRNode::Let { body, .. } => is_true_const(body),
        _ => false,
    }
}

/// The branches on a variable, behind bindings that copy it or bind nothing.
pub open spec fn branches_on(body: Node, x: Name) -> Option<(Node, Node)>
    decreases body,
{
    match body {
        Node::Let { pattern, value, body: inner } => if pattern.len() == 1 && *value == Node::Var(
            x,
        ) {
            branches_on(*inner, pattern[0])
        } else if (pattern.len() == 0 || (pattern.len() == 1 && pattern[0] == "_"@)) && *value
            == Node::unit() {
            branches_on(*inner, x)
        } else {
            None
        },
        Node::If { cond, then_branch, else_branch } => if *cond == Node::Var(x) {
            Some((*then_branch, *else_branch))
        } else {
            None
        },
        _ => None,
    }
}

/// The negation of an expression.
pub open spec fn negated(n: Node) -> Node {
    Node::UnOp { op: UnOp::Not, operand: Box::new(n) }
}

/// The branches that a binding of a conditional leads to, on what it binds.
pub open spec fn bound_branches(n: Node) -> Option<(Node, Node)> {
    match n {
        Node::Let { pattern, value, body } => if *value is If && pattern.len() == 1 {
            branches_on(*body, pattern[0])
        } else {
            None
        },
        _ => None,
    }
}

/// What counts conditionals.
pub open spec fn counts_ifs() -> spec_fn(Node) -> nat {
    |n: Node|
        if n is If {
            1nat
        } else {
            0nat
        }
}

/// The number of conditionals in an expression.
pub open spec fn ifs(n: Node) -> nat {
    n.weight(counts_ifs())
}

/// The conditionals of a binding.
proof fn lemma_ifs_let(pattern: Seq<Name>, value: Node, body: Node)
    ensures
        ifs(Node::Let { pattern, value: Box::new(value), body: Box::new(body) }) == ifs(value)
            + ifs(body),
{
    let n = Node::Let { pattern, value: Box::new(value), body: Box::new(body) };
    assert(n.kids() =~= seq![value, body]);
    n.lemma_weight_of_two(counts_ifs(), value, body);
}

/// The conditionals of a conditional.
proof fn lemma_ifs_if(c: Node, t: Node, e: Node)
    ensures
        ifs(
            Node::If { cond: Box::new(c), then_branch: Box::new(t), else_branch: Box::new(e) },
        ) == 1 + ifs(c) + ifs(t) + ifs(e),
{
    let n = Node::If { cond: Box::new(c), then_branch: Box::new(t), else_branch: Box::new(e) };
    assert(n.kids() =~= seq![c, t, e]);
    n.lemma_weight_of_three(counts_ifs(), c, t, e);
}

/// The conditionals of a disjunction.
proof fn lemma_ifs_or(a: Node, b: Node)
    ensures
        ifs(disjunction(a, b)) == ifs(a) + ifs(b),
{
    let n = disjunction(a, b);
    assert(n.kids() =~= seq![a, b]);
    n.lemma_weight_of_two(counts_ifs(), a, b);
}

/// The conditionals of a negation.
proof fn lemma_ifs_not(a: Node)
    ensures
        ifs(negated(a)) == ifs(a),
{
    let n = negated(a);
    let w = counts_ifs();
    assert(n.kids() =~= seq![a]);
    assert(n.weight_from(w, 1) == 0);
    assert(n.weight_from(w, 0) == n.kids()[0].weight(w) + n.weight_from(w, 1));
}

/// The branches on a variable are part of the expression.
pub proof fn lemma_branches_on(body: Node, x: Name)
    ensures
        match branches_on(body, x) {
            Some((t, e)) => t.load() < body.load() && e.load() < body.load() && ifs(t) + ifs(e)
                < ifs(body),
            None => true,
        },
    decreases body,
{
    match body {
        Node::Let { pattern, value, body: inner } => {
            body.lemma_load_kid(1);
            lemma_ifs_let(pattern, *value, *inner);
            lemma_branches_on(*inner, x);
            if pattern.len() == 1 {
                lemma_branches_on(*inner, pattern[0]);
            }
        },
        Node::If { cond, then_branch, else_branch } => {
            body.lemma_load_kid(1);
            body.lemma_load_kid(2);
            lemma_ifs_if(*cond, *then_branch, *else_branch);
        },
        _ => {},
    }
}

/// The conditions under which a chain of conditionals is `true`, behind those so
/// far, and what it is otherwise.
pub open spec fn true_conditions(n: Node, acc: Seq<Node>) -> (Seq<Node>, Node)
    decreases n.load(),
{
    match n {
        Node::If { cond, then_branch, else_branch } => {
            proof {
                n.lemma_load_kid(1);
                n.lemma_load_kid(2);
            }
            if is_true(*then_branch) {
                true_conditions(*else_branch, acc.push(*cond))
            } else if is_true(*else_branch) {
                true_conditions(*then_branch, acc.push(negated(*cond)))
            } else {
                (acc, n)
            }
        },
        Node::Let { pattern, value, body } => {
            proof {
                n.lemma_load_kid(1);
                if pattern.len() == 1 {
                    lemma_branches_on(*body, pattern[0]);
                }
            }
            match bound_branches(n) {
                Some((t, e)) => if is_true(t) {
                    true_conditions(e, acc.push(*value))
                } else if is_true(e) {
                    true_conditions(t, acc.push(negated(*value)))
                } else {
                    (
                        acc,
                        Node::If {
                            cond: value,
                            then_branch: Box::new(t),
                            else_branch: Box::new(e),
                        },
                    )
                },
                None => {
                    let (cs, rest) = true_conditions(*body, acc);
                    if cs.len() == 0 {
                        (cs, n)
                    } else {
                        (cs, Node::Let { pattern, value, body: Box::new(rest) })
                    }
                },
            }
        },
        _ => (acc, n),
    }
}

/// The disjunction of two expressions.
pub open spec fn disjunction(a: Node, b: Node) -> Node {
    Node::BinOp { op: BinOp::Or, lhs: Box::new(a), rhs: Box::new(b) }
}

/// The disjunction of the conditions and a last expression.
pub open spec fn disjoined(cs: Seq<Node>, last: Node) -> Node
    decreases cs.len(),
{
    if cs.len() == 0 {
        last
    } else {
        disjunction(cs[0], disjoined(cs.subrange(1, cs.len() as int), last))
    }
}

/// The number of conditions that are joined next.
pub open spec fn next_chunk(cs: Seq<Node>) -> int {
    if cs.len() < CHUNK_SIZE {
        cs.len() as int
    } else {
        CHUNK_SIZE as int
    }
}

/// The disjunction of the conditions, a few at a time, and a last expression.
pub open spec fn chunks_disjoined(cs: Seq<Node>, last: Node) -> Node
    decreases cs.len(),
{
    if cs.len() == 0 {
        last
    } else {
        let k = next_chunk(cs);
        disjunction(
            disjoined(cs.subrange(0, k), Node::Const(Lit::Bool(false))),
            chunks_disjoined(cs.subrange(k, cs.len() as int), last),
        )
    }
}

/// The disjunction of conditions and a last expression, in chunks where there are
/// many.
pub open spec fn or_chain(cs: Seq<Node>, last: Node) -> Node {
    if cs.len() <= CHUNK_SIZE {
        disjoined(cs, last)
    } else {
        chunks_disjoined(cs, last)
    }
}

/// The expression with its chains of conditionals as disjunctions: the whole where
/// it is a chain of more than three, else each of the branches inside it.
pub open spec fn ifs_flattened(n: Node) -> Node
    decreases ifs(n), n, 2nat,
{
    let (cs, rest) = true_conditions(n, Seq::empty());
    if cs.len() > 3 {
        or_chain(cs, rest)
    } else {
        flattened_inside(n)
    }
}

/// The expression with the branches inside it flattened, the innermost first. A
/// branch has fewer conditionals than what it is a branch of.
pub open spec fn flattened_inside(n: Node) -> Node
    decreases ifs(n), n, 1nat,
{
    match n.with_kids(flattened_kids(n)) {
        Node::If { cond, then_branch, else_branch } => Node::If {
            cond,
            then_branch: Box::new(
                if ifs(*then_branch) < ifs(n) {
                    ifs_flattened(*then_branch)
                } else {
                    *then_branch
                },
            ),
            else_branch: Box::new(
                if ifs(*else_branch) < ifs(n) {
                    ifs_flattened(*else_branch)
                } else {
                    *else_branch
                },
            ),
        },
        other => other,
    }
}

/// The direct subexpressions, each with the branches inside it flattened.
pub open spec fn flattened_kids(n: Node) -> Seq<Node>
    decreases ifs(n), n, 0nat,
{
    proof {
        n.lemma_kids_decrease();
        lemma_kid_ifs(n);
    }
    Seq::new(
        n.kids().len(),
        |i: int|
            if 0 <= i < n.kids().len() {
                flattened_inside(n.kids()[i])
            } else {
                arbitrary()
            },
    )
}

/// A direct subexpression is counted.
proof fn lemma_kid_weight(n: Node, w: spec_fn(Node) -> nat, k: nat, i: int)
    requires
        k <= i < n.kids().len(),
    ensures
        n.kids()[i].weight(w) <= n.weight_from(w, k),
    decreases i - k,
{
    if k < i {
        lemma_kid_weight(n, w, k + 1, i);
    }
}

/// A direct subexpression has no more conditionals, and that of a conditional has
/// fewer.
pub proof fn lemma_kid_ifs(n: Node)
    ensures
        forall|i: int|
            0 <= i < n.kids().len() ==> ifs(#[trigger] n.kids()[i]) <= ifs(n) && (n is If ==> ifs(
                n.kids()[i],
            ) < ifs(n)),
{
    assert forall|i: int| 0 <= i < n.kids().len() implies ifs(#[trigger] n.kids()[i]) <= ifs(n)
        && (n is If ==> ifs(n.kids()[i]) < ifs(n)) by {
        lemma_kid_weight(n, counts_ifs(), 0, i);
    }
}

/// The conditionals of each of the expressions, added up.
pub open spec fn all_ifs(cs: Seq<Node>) -> nat
    decreases cs.len(),
{
    if cs.len() == 0 {
        0
    } else {
        all_ifs(cs.drop_last()) + ifs(cs.last())
    }
}

/// The conditionals of two lists, one behind the other.
proof fn lemma_all_ifs_split(cs: Seq<Node>, k: int)
    requires
        0 <= k <= cs.len(),
    ensures
        all_ifs(cs) == all_ifs(cs.subrange(0, k)) + all_ifs(cs.subrange(k, cs.len() as int)),
    decreases cs.len(),
{
    if k == cs.len() {
        assert(cs.subrange(0, k) =~= cs);
        assert(cs.subrange(k, k) =~= Seq::empty());
    } else {
        lemma_all_ifs_split(cs.drop_last(), k);
        assert(cs.drop_last().subrange(0, k) =~= cs.subrange(0, k));
        let tail = cs.subrange(k, cs.len() as int);
        assert(tail.drop_last() =~= cs.drop_last().subrange(k, cs.len() - 1));
        assert(tail.last() == cs.last());
    }
}

/// The conditionals of a disjunction of conditions.
proof fn lemma_ifs_disjoined(cs: Seq<Node>, last: Node)
    ensures
        ifs(disjoined(cs, last)) == all_ifs(cs) + ifs(last),
    decreases cs.len(),
{
    if cs.len() > 0 {
        let rest = cs.subrange(1, cs.len() as int);
        lemma_ifs_disjoined(rest, last);
        lemma_ifs_or(cs[0], disjoined(rest, last));
        lemma_all_ifs_split(cs, 1);
        let first = cs.subrange(0, 1);
        assert(first.drop_last() =~= Seq::empty());
        assert(all_ifs(first) == all_ifs(first.drop_last()) + ifs(first.last()));
        assert(all_ifs(Seq::<Node>::empty()) == 0);
    }
}

/// The conditionals of a disjunction in chunks.
proof fn lemma_ifs_chunks(cs: Seq<Node>, last: Node)
    ensures
        ifs(chunks_disjoined(cs, last)) == all_ifs(cs) + ifs(last),
    decreases cs.len(),
{
    if cs.len() > 0 {
        let k = next_chunk(cs);
        let first = cs.subrange(0, k);
        let rest = cs.subrange(k, cs.len() as int);
        let no = Node::Const(Lit::Bool(false));
        assert(ifs(no) == 0);
        lemma_ifs_disjoined(first, no);
        lemma_ifs_chunks(rest, last);
        lemma_ifs_or(disjoined(first, no), chunks_disjoined(rest, last));
        lemma_all_ifs_split(cs, k);
    }
}

/// Collecting conditions brings no new conditionals.
proof fn lemma_ifs_conditions(n: Node, acc: Seq<Node>)
    ensures
        ({
            let (cs, rest) = true_conditions(n, acc);
            all_ifs(cs) + ifs(rest) <= all_ifs(acc) + ifs(n)
        }),
    decreases n.load(),
{
    match n {
        Node::If { cond, then_branch, else_branch } => {
            n.lemma_load_kid(1);
            n.lemma_load_kid(2);
            lemma_ifs_if(*cond, *then_branch, *else_branch);
            lemma_ifs_not(*cond);
            let a = acc.push(*cond);
            let b = acc.push(negated(*cond));
            assert(a.drop_last() =~= acc && b.drop_last() =~= acc);
            lemma_ifs_conditions(*else_branch, a);
            lemma_ifs_conditions(*then_branch, b);
        },
        Node::Let { pattern, value, body } => {
            n.lemma_load_kid(1);
            lemma_ifs_let(pattern, *value, *body);
            lemma_ifs_not(*value);
            if pattern.len() == 1 {
                lemma_branches_on(*body, pattern[0]);
            }
            match bound_branches(n) {
                Some((t, e)) => {
                    let a = acc.push(*value);
                    let b = acc.push(negated(*value));
                    assert(a.drop_last() =~= acc && b.drop_last() =~= acc);
                    lemma_ifs_conditions(e, a);
                    lemma_ifs_conditions(t, b);
                    lemma_ifs_if(*value, t, e);
                },
                None => {
                    lemma_ifs_conditions(*body, acc);
                    let (cs, rest) = true_conditions(*body, acc);
                    lemma_ifs_let(pattern, *value, rest);
                    lemma_no_conditions(*body, acc);
                },
            }
        },
        _ => {},
    }
}

/// Conditions are only added.
proof fn lemma_no_conditions(n: Node, acc: Seq<Node>)
    ensures
        true_conditions(n, acc).0.len() >= acc.len(),
    decreases n.load(),
{
    match n {
        Node::If { cond, then_branch, else_branch } => {
            n.lemma_load_kid(1);
            n.lemma_load_kid(2);
            lemma_no_conditions(*else_branch, acc.push(*cond));
            lemma_no_conditions(*then_branch, acc.push(negated(*cond)));
        },
        Node::Let { pattern, value, body } => {
            n.lemma_load_kid(1);
            if pattern.len() == 1 {
                lemma_branches_on(*body, pattern[0]);
            }
            match bound_branches(n) {
                Some((t, e)) => {
                    lemma_no_conditions(e, acc.push(*value));
                    lemma_no_conditions(t, acc.push(negated(*value)));
                },
                None => {
                    lemma_no_conditions(*body, acc);
                },
            }
        },
        _ => {},
    }
}

/// Flattening brings no new conditionals.
proof fn lemma_ifs_flattened(n: Node)
    ensures
        ifs(ifs_flattened(n)) <= ifs(n),
    decreases ifs(n), n, 2nat,
{
    let (cs, rest) = true_conditions(n, Seq::empty());
    if cs.len() > 3 {
        lemma_ifs_conditions(n, Seq::empty());
        lemma_ifs_disjoined(cs, rest);
        lemma_ifs_chunks(cs, rest);
    } else {
        lemma_ifs_inside(n);
    }
}

/// Flattening the branches inside an expression brings no new conditionals, and
/// each of them has fewer than the expression.
proof fn lemma_ifs_inside(n: Node)
    ensures
        ifs(flattened_inside(n)) <= ifs(n),
        n is If ==> ifs(flattened_kids(n)[1]) < ifs(n) && ifs(flattened_kids(n)[2]) < ifs(n),
    decreases ifs(n), n, 1nat,
{
    let w = counts_ifs();
    let ks = flattened_kids(n);
    n.lemma_kids_decrease();
    lemma_kid_ifs(n);
    n.lemma_with_kids(ks);
    let m = n.with_kids(ks);
    assert forall|i: int| 0 <= i < m.kids().len() implies (#[trigger] m.kids()[i]).weight(w)
        <= n.kids()[i].weight(w) by {
        lemma_ifs_inside(n.kids()[i]);
        assert(ks[i] == flattened_inside(n.kids()[i]));
    }
    m.lemma_weight_from(n, w, 0);
    assert(w(m) == w(n));
    assert(ifs(m) <= ifs(n));
    match m {
        Node::If { cond, then_branch, else_branch } => {
            assert(ks[1] == *then_branch && ks[2] == *else_branch);
            assert(m.kids()[1].weight(w) <= n.kids()[1].weight(w));
            assert(m.kids()[2].weight(w) <= n.kids()[2].weight(w));
            assert(ifs(n.kids()[1]) < ifs(n) && ifs(n.kids()[2]) < ifs(n));
            lemma_ifs_flattened(*then_branch);
            lemma_ifs_flattened(*else_branch);
            lemma_ifs_if(*cond, *then_branch, *else_branch);
            lemma_ifs_if(*cond, ifs_flattened(*then_branch), ifs_flattened(*else_branch));
        },
        _ => {},
    }
}

/// What becomes of an expression: it is flattened where branches are nested too
/// deep in it.
pub open spec fn nesting_flattened(n: Node) -> Node {
    if if_depth(n) > MAX_IF_DEPTH {
        ifs_flattened(n)
    } else {
        n
    }
}

/// The branches on a variable, behind bindings that copy it or bind nothing.
fn unwrap_let_if_pattern<'a>(body: &'a IRNode, x: &TempId) -> (r: Option<(&'a IRNode, &'a IRNode)>)
    ensures
        match r {
            Some((t, e)) => branches_on(body@, x@) == Some((t@, e@)),
            None => branches_on(body@, x@) is None,
        },
    decreases body,
{
    match body {
        IRNode::Let { pattern, value, body: inner } => {
            let ghost ps = crate::ir::names(pattern@);
            assert(ps.len() == pattern@.len());
            if pattern.len() == 1 {
                assert(ps[0] == pattern@[0]@);
                let copies = match &**value {
                    IRNode::Var(v) => *v == *x,
                    _ => false,
                };
                assert(copies == ((*value)@ == Node::Var(x@)));
                if copies {
                    return unwrap_let_if_pattern(inner, &pattern[0]);
                }
            }
            if pattern.len() == 0 || (pattern.len() == 1 && name_is(&pattern[0], "_")) {
                assert(crate::early_return::is_unit_value((*value)@) == ((*value)@
                    == Node::unit())) by {
                    match (*value)@ {
                        Node::Tuple(elems) => {
                            if elems.len() == 0 {
                                assert(elems =~= Seq::empty());
                            }
                        },
                        _ => {},
                    }
                }
                if is_empty_tuple(value) {
                    return unwrap_let_if_pattern(inner, x);
                }
            }
            None
        },
        IRNode::If { cond, then_branch, else_branch } => {
            let own = match &**cond {
                IRNode::Var(v) => *v == *x,
                _ => false,
            };
            assert(own == ((*cond)@ == Node::Var(x@)));
            if own {
                Some((&**then_branch, &**else_branch))
            } else {
                None
            }
        },
        _ => None,
    }
}

/// The negation of an expression.
fn negate(n: &IRNode) -> (r: IRNode)
    ensures
        r@ == negated(n@),
{
    IRNode::UnOp { op: UnOp::Not, operand: Box::new(n.clone()) }
}

/// Adds a condition to a list.
fn add_condition(cs: &mut Vec<IRNode>, c: IRNode)
    ensures
        IRNode::views(final(cs)@) == IRNode::views(old(cs)@).push(c@),
{
    let ghost before = IRNode::views(cs@);
    cs.push(c);
    assert(IRNode::views(cs@) =~= before.push(c@));
}

/// Collects the conditions under which a chain of conditionals is `true`; returns
/// what it is otherwise.
fn collect_if_true_else_chain(node: &IRNode, cs: &mut Vec<IRNode>) -> (r: IRNode)
    ensures
        (IRNode::views(final(cs)@), r@) == true_conditions(node@, IRNode::views(old(cs)@)),
    decreases node@.load(),
{
    match node {
        IRNode::If { cond, then_branch, else_branch } => {
            proof {
                node@.lemma_load_kid(1);
                node@.lemma_load_kid(2);
            }
            if is_true_const(then_branch) {
                add_condition(cs, (**cond).clone());
                collect_if_true_else_chain(else_branch, cs)
            } else if is_true_const(else_branch) {
                add_condition(cs, negate(cond));
                collect_if_true_else_chain(then_branch, cs)
            } else {
                node.clone()
            }
        },
        IRNode::Let { pattern, value, body } => {
            let ghost ps = crate::ir::names(pattern@);
            assert(ps.len() == pattern@.len());
            proof {
                node@.lemma_load_kid(1);
                if ps.len() == 1 {
                    lemma_branches_on((*body)@, ps[0]);
                }
            }
            let conditional = match &**value {
                IRNode::If { .. } => true,
                _ => false,
            };
            assert(conditional == ((*value)@ is If));
            if conditional && pattern.len() == 1 {
                assert(ps[0] == pattern@[0]@);
                if let Some((t, e)) = unwrap_let_if_pattern(body, &pattern[0]) {
                    if is_true_const(t) {
                        add_condition(cs, (**value).clone());
                        return collect_if_true_else_chain(e, cs);
                    }
                    if is_true_const(e) {
                        add_condition(cs, negate(value));
                        return collect_if_true_else_chain(t, cs);
                    }
                    return IRNode::If {
                        cond: value.clone(),
                        then_branch: Box::new(t.clone()),
                        else_branch: Box::new(e.clone()),
                    };
                }
            }
            let rest = collect_if_true_else_chain(body, cs);
            assert(IRNode::views(cs@).len() == cs@.len());
            if cs.len() == 0 {
                node.clone()
            } else {
                IRNode::Let {
                    pattern: clone_names(pattern),
                    value: value.clone(),
                    body: Box::new(rest),
                }
            }
        },
        _ => node.clone(),
    }
}

/// The disjunction of two expressions.
fn disjoin(a: IRNode, b: IRNode) -> (r: IRNode)
    ensures
        r@ == disjunction(a@, b@),
{
    IRNode::BinOp { op: BinOp::Or, lhs: Box::new(a), rhs: Box::new(b) }
}

/// The disjunction of some of the conditions and a last expression.
fn disjoin_range(cs: &Vec<IRNode>, from: usize, to: usize, last: IRNode) -> (r: IRNode)
    requires
        from <= to <= cs@.len(),
    ensures
        r@ == disjoined(IRNode::views(cs@).subrange(from as int, to as int), last@),
{
    let ghost all = IRNode::views(cs@);
    let ghost end = last@;
    let mut out = last;
    let mut i: usize = to;
    assert(all.subrange(to as int, to as int) =~= Seq::empty());
    while i > from
        invariant
            from <= i <= to <= cs@.len(),
            all == IRNode::views(cs@),
            all.len() == cs@.len(),
            out@ == disjoined(all.subrange(i as int, to as int), end),
        decreases i,
    {
        i -= 1;
        let ghost part = all.subrange(i as int, to as int);
        assert(part.subrange(1, part.len() as int) =~= all.subrange(i + 1, to as int));
        assert(part[0] == cs@[i as int]@);
        out = disjoin(cs[i].clone(), out);
    }
    out
}

/// The disjunction of conditions and a last expression.
fn build_or_chain(cs: &Vec<IRNode>, last: IRNode) -> (r: IRNode)
    ensures
        r@ == or_chain(IRNode::views(cs@), last@),
{
    let ghost all = IRNode::views(cs@);
    assert(all.len() == cs@.len());
    let n = cs.len();
    if n <= CHUNK_SIZE {
        assert(all.subrange(0, n as int) =~= all);
        return disjoin_range(cs, 0, n, last);
    }
    let ghost end = last@;
    let mut to: usize = n;
    let mut from: usize = (n - 1) / CHUNK_SIZE * CHUNK_SIZE;
    let mut out = last;
    assert(all.subrange(n as int, n as int) =~= Seq::empty());
    loop
        invariant_except_break
            out@ == chunks_disjoined(all.subrange(to as int, n as int), end),
        invariant
            n == cs@.len(),
            all == IRNode::views(cs@),
            all.len() == n,
            from % CHUNK_SIZE == 0,
            from < to <= n,
            to == n ==> n - from <= CHUNK_SIZE,
            to < n ==> to - from == CHUNK_SIZE,
        ensures
            out@ == chunks_disjoined(all, end),
        decreases from,
    {
        let no = IRNode::Const(Const::Bool(false));
        assert(no@ == Node::Const(Lit::Bool(false)));
        let part = disjoin_range(cs, from, to, no);
        let ghost here = all.subrange(from as int, n as int);
        proof {
            assert(next_chunk(here) == to - from);
            assert(here.subrange(0, to - from) =~= all.subrange(from as int, to as int));
            assert(here.subrange(to - from, here.len() as int) =~= all.subrange(
                to as int,
                n as int,
            ));
        }
        out = disjoin(part, out);
        if from == 0 {
            assert(here =~= all);
            break;
        }
        to = from;
        from = from - CHUNK_SIZE;
    }
    out
}

/// Flattens the chains of conditionals of an expression.
fn flatten_deep_ifs(node: &IRNode) -> (r: IRNode)
    ensures
        r@ == ifs_flattened(node@),
    decreases ifs(node@), node@, 2nat,
{
    let mut cs: Vec<IRNode> = Vec::new();
    assert(IRNode::views(cs@) =~= Seq::empty());
    let rest = collect_if_true_else_chain(node, &mut cs);
    assert(IRNode::views(cs@).len() == cs@.len());
    if cs.len() > 3 {
        build_or_chain(&cs, rest)
    } else {
        flatten_inside(node)
    }
}

/// Flattens the branches inside an expression, the innermost first.
fn flatten_inside(node: &IRNode) -> (r: IRNode)
    ensures
        r@ == flattened_inside(node@),
    decreases ifs(node@), node@, 1nat,
{
    let ks = node.children();
    let mut out: Vec<IRNode> = Vec::new();
    let mut i: usize = 0;
    proof {
        node@.lemma_kids_decrease();
        lemma_kid_ifs(node@);
    }
    while i < ks.len()
        invariant
            i <= ks.len(),
            out@.len() == i,
            ks@.len() == node@.kids().len(),
            forall|j: int| 0 <= j < ks@.len() ==> (#[trigger] ks@[j])@ == node@.kids()[j],
            forall|j: int|
                0 <= j < i ==> (#[trigger] out@[j])@ == flattened_inside(node@.kids()[j]),
            forall|j: int| 0 <= j < node@.kids().len() ==> decreases_to!(
                node@ => #[trigger] node@.kids()[j]
            ),
            forall|j: int|
                0 <= j < node@.kids().len() ==> ifs(#[trigger] node@.kids()[j]) <= ifs(node@),
        decreases ks.len() - i,
    {
        assert(ks@[i as int]@ == node@.kids()[i as int]);
        out.push(flatten_inside(ks[i]));
        i += 1;
    }
    assert(IRNode::views(out@) =~= flattened_kids(node@));
    let rebuilt = node.with_children(out);
    match rebuilt {
        IRNode::If { cond, then_branch, else_branch } => {
            proof {
                lemma_ifs_inside(node@);
                assert(flattened_kids(node@)[1] == (*then_branch)@);
                assert(flattened_kids(node@)[2] == (*else_branch)@);
            }
            let t = flatten_deep_ifs(&then_branch);
            let e = flatten_deep_ifs(&else_branch);
            IRNode::If { cond, then_branch: Box::new(t), else_branch: Box::new(e) }
        },
        other => other,
    }
}

/// Flattens conditionals that are nested too deep.
pub fn flatten_deep_nesting(node: IRNode) -> (r: IRNode)
    ensures
        r@ == nesting_flattened(node@),
{
    if is_deeper(&node, MAX_IF_DEPTH) {
        flatten_deep_ifs(&node)
    } else {
        node
    }
}

/// Whether a reading of expressions as truth values takes disjunctions and
/// constants for what they are.
pub open spec fn reads_or(v: spec_fn(Node) -> bool) -> bool {
    (forall|a: Node, b: Node| #[trigger] v(disjunction(a, b)) == (v(a) || v(b))) && !v(
        Node::Const(Lit::Bool(false)),
    )
}

/// Whether one of the conditions holds.
pub open spec fn some_holds(v: spec_fn(Node) -> bool, cs: Seq<Node>) -> bool {
    exists|i: int| 0 <= i < cs.len() && v(#[trigger] cs[i])
}

/// What a disjunction of conditions means.
proof fn lemma_disjoined_means(v: spec_fn(Node) -> bool, cs: Seq<Node>, last: Node)
    requires
        reads_or(v),
    ensures
        v(disjoined(cs, last)) == (some_holds(v, cs) || v(last)),
    decreases cs.len(),
{
    if cs.len() > 0 {
        let rest = cs.subrange(1, cs.len() as int);
        lemma_disjoined_means(v, rest, last);
        lemma_some_holds(v, cs, 1);
        assert(some_holds(v, cs.subrange(0, 1)) == v(cs[0])) by {
            assert(cs.subrange(0, 1)[0] == cs[0]);
        }
        assert(v(disjunction(cs[0], disjoined(rest, last))) == (v(cs[0]) || v(
            disjoined(rest, last),
        )));
    }
}

/// One of the conditions holds if one does in either part of the list.
proof fn lemma_some_holds(v: spec_fn(Node) -> bool, cs: Seq<Node>, k: int)
    requires
        0 <= k <= cs.len(),
    ensures
        some_holds(v, cs) == (some_holds(v, cs.subrange(0, k)) || some_holds(
            v,
            cs.subrange(k, cs.len() as int),
        )),
{
    let a = cs.subrange(0, k);
    let b = cs.subrange(k, cs.len() as int);
    if some_holds(v, cs) {
        let i = choose|i: int| 0 <= i < cs.len() && v(#[trigger] cs[i]);
        if i < k {
            assert(v(a[i]));
        } else {
            assert(v(b[i - k]));
        }
    }
    if some_holds(v, a) {
        let i = choose|i: int| 0 <= i < a.len() && v(#[trigger] a[i]);
        assert(v(cs[i]));
    }
    if some_holds(v, b) {
        let i = choose|i: int| 0 <= i < b.len() && v(#[trigger] b[i]);
        assert(v(cs[i + k]));
    }
}

/// What a disjunction in chunks means.
proof fn lemma_chunks_mean(v: spec_fn(Node) -> bool, cs: Seq<Node>, last: Node)
    requires
        reads_or(v),
    ensures
        v(chunks_disjoined(cs, last)) == (some_holds(v, cs) || v(last)),
    decreases cs.len(),
{
    if cs.len() > 0 {
        let k = next_chunk(cs);
        let no = Node::Const(Lit::Bool(false));
        let first = cs.subrange(0, k);
        let rest = cs.subrange(k, cs.len() as int);
        lemma_disjoined_means(v, first, no);
        lemma_chunks_mean(v, rest, last);
        lemma_some_holds(v, cs, k);
        assert(v(disjunction(disjoined(first, no), chunks_disjoined(rest, last))) == (v(
            disjoined(first, no),
        ) || v(chunks_disjoined(rest, last))));
    }
}

/// A chain of conditions holds exactly where one of the conditions does, or what
/// is left does, whether or not it is joined in chunks.
pub proof fn law_or_chain_means_one_holds(v: spec_fn(Node) -> bool, cs: Seq<Node>, last: Node)
    requires
        reads_or(v),
    ensures
        v(or_chain(cs, last)) == (some_holds(v, cs) || v(last)),
{
    lemma_disjoined_means(v, cs, last);
    lemma_chunks_mean(v, cs, last);
}

/// Flattening never adds a conditional.
pub proof fn law_flattening_adds_no_conditional(n: Node)
    ensures
        ifs(nesting_flattened(n)) <= ifs(n),
{
    lemma_ifs_flattened(n);
}

/// A chain of conditionals: `true` under each of the conditions, else the last
/// expression.
pub open spec fn true_chain(cs: Seq<Node>, last: Node) -> Node
    decreases cs.len(),
{
    if cs.len() == 0 {
        last
    } else {
        Node::If {
            cond: Box::new(cs[0]),
            then_branch: Box::new(Node::Const(Lit::Bool(true))),
            else_branch: Box::new(true_chain(cs.subrange(1, cs.len() as int), last)),
        }
    }
}

/// An expression without conditionals nests none and gives no condition.
proof fn lemma_without_ifs(n: Node, acc: Seq<Node>)
    requires
        ifs(n) == 0,
    ensures
        if_depth(n) == 0,
        true_conditions(n, acc) == (acc, n),
    decreases n.load(),
{
    match n {
        Node::If { cond, then_branch, else_branch } => {
            lemma_ifs_if(*cond, *then_branch, *else_branch);
        },
        Node::Let { pattern, value, body } => {
            n.lemma_load_kid(0);
            n.lemma_load_kid(1);
            lemma_ifs_let(pattern, *value, *body);
            if let Node::If { cond, then_branch, else_branch } = *value {
                lemma_ifs_if(*cond, *then_branch, *else_branch);
            }
            lemma_without_ifs(*value, acc);
            lemma_without_ifs(*body, acc);
        },
        _ => {},
    }
}

/// A chain is as deep as it is long, and gives its conditions.
proof fn lemma_true_chain(cs: Seq<Node>, last: Node, acc: Seq<Node>)
    requires
        ifs(last) == 0,
    ensures
        if_depth(true_chain(cs, last)) == cs.len(),
        true_conditions(true_chain(cs, last), acc) == (acc + cs, last),
    decreases cs.len(),
{
    if cs.len() == 0 {
        lemma_without_ifs(last, acc);
        assert(acc + cs =~= acc);
    } else {
        let rest = cs.subrange(1, cs.len() as int);
        let yes = Node::Const(Lit::Bool(true));
        lemma_true_chain(rest, last, acc.push(cs[0]));
        assert(if_depth(yes) == 0);
        assert(is_true(yes));
        assert(acc.push(cs[0]) + rest =~= acc + cs);
    }
}

/// A chain of as many conditionals as may be nested, or fewer, stays as it is.
pub proof fn law_short_chain_stays(cs: Seq<Node>, last: Node)
    requires
        ifs(last) == 0,
        cs.len() <= MAX_IF_DEPTH,
    ensures
        nesting_flattened(true_chain(cs, last)) == true_chain(cs, last),
{
    lemma_true_chain(cs, last, Seq::empty());
}

/// A longer chain becomes the disjunction of its conditions, in their order, and what is
/// left. None of its conditionals stays: all that are left stand inside its conditions.
pub proof fn law_long_chain_is_a_disjunction(cs: Seq<Node>, last: Node)
    requires
        ifs(last) == 0,
        cs.len() > MAX_IF_DEPTH,
    ensures
        nesting_flattened(true_chain(cs, last)) == or_chain(cs, last),
        ifs(nesting_flattened(true_chain(cs, last))) == all_ifs(cs),
        (forall|i: int| 0 <= i < cs.len() ==> ifs(#[trigger] cs[i]) == 0) ==> ifs(
            nesting_flattened(true_chain(cs, last)),
        ) == 0,
{
    lemma_true_chain(cs, last, Seq::empty());
    assert(Seq::<Node>::empty() + cs =~= cs);
    lemma_ifs_chunks(cs, last);
    if forall|i: int| 0 <= i < cs.len() ==> ifs(#[trigger] cs[i]) == 0 {
        lemma_all_without_ifs(cs);
    }
}

/// Expressions without conditionals have none together.
proof fn lemma_all_without_ifs(cs: Seq<Node>)
    requires
        forall|i: int| 0 <= i < cs.len() ==> ifs(#[trigger] cs[i]) == 0,
    ensures
        all_ifs(cs) == 0,
    decreases cs.len(),
{
    if cs.len() > 0 {
        let front = cs.drop_last();
        assert forall|i: int| 0 <= i < front.len() implies ifs(#[trigger] front[i]) == 0 by {
            assert(front[i] == cs[i]);
        }
        lemma_all_without_ifs(front);
        assert(cs[cs.len() - 1] == cs.last());
    }
}

/// The expressions that a disjunction joins, in their order; `false` joins nothing.
pub open spec fn disjuncts(n: Node) -> Seq<Node>
    decreases n,
{
    match n {
        Node::BinOp { op: BinOp::Or, lhs, rhs } => disjuncts(*lhs) + disjuncts(*rhs),
        Node::Const(Lit::Bool(false)) => Seq::empty(),
        _ => seq![n],
    }
}

/// The expressions that each of the conditions joins, one behind the other.
pub open spec fn all_disjuncts(cs: Seq<Node>) -> Seq<Node>
    decreases cs.len(),
{
    if cs.len() == 0 {
        Seq::empty()
    } else {
        all_disjuncts(cs.drop_last()) + disjuncts(cs.last())
    }
}

/// What two lists of conditions join, one behind the other.
proof fn lemma_all_disjuncts_split(cs: Seq<Node>, k: int)
    requires
        0 <= k <= cs.len(),
    ensures
        all_disjuncts(cs) == all_disjuncts(cs.subrange(0, k)) + all_disjuncts(
            cs.subrange(k, cs.len() as int),
        ),
    decreases cs.len(),
{
    if k == cs.len() {
        assert(cs.subrange(0, k) =~= cs);
        assert(cs.subrange(k, k) =~= Seq::empty());
        assert(all_disjuncts(cs) + Seq::<Node>::empty() =~= all_disjuncts(cs));
    } else {
        lemma_all_disjuncts_split(cs.drop_last(), k);
        assert(cs.drop_last().subrange(0, k) =~= cs.subrange(0, k));
        let tail = cs.subrange(k, cs.len() as int);
        assert(tail.drop_last() =~= cs.drop_last().subrange(k, cs.len() - 1));
        assert(tail.last() == cs.last());
        assert(all_disjuncts(cs) =~= all_disjuncts(cs.subrange(0, k)) + all_disjuncts(tail));
    }
}

/// What a disjunction of conditions joins.
proof fn lemma_disjuncts_of(cs: Seq<Node>, last: Node)
    ensures
        disjuncts(disjoined(cs, last)) == all_disjuncts(cs) + disjuncts(last),
    decreases cs.len(),
{
    if cs.len() == 0 {
        assert(Seq::<Node>::empty() + disjuncts(last) =~= disjuncts(last));
    } else {
        let rest = cs.subrange(1, cs.len() as int);
        let first = cs.subrange(0, 1);
        lemma_disjuncts_of(rest, last);
        lemma_all_disjuncts_split(cs, 1);
        assert(first.drop_last() =~= Seq::empty());
        assert(all_disjuncts(first) == all_disjuncts(first.drop_last()) + disjuncts(
            first.last(),
        ));
        assert(all_disjuncts(Seq::<Node>::empty()) =~= Seq::empty());
        assert(all_disjuncts(first) =~= disjuncts(cs[0]));
        assert(disjuncts(disjoined(cs, last)) =~= all_disjuncts(cs) + disjuncts(last));
    }
}

/// A chain of conditions joins what the conditions and the last expression do, in their
/// order, whether or not it is joined in chunks.
pub proof fn law_or_chain_keeps_the_order(cs: Seq<Node>, last: Node)
    ensures
        disjuncts(or_chain(cs, last)) == all_disjuncts(cs) + disjuncts(last),
{
    lemma_disjuncts_of(cs, last);
    lemma_chunk_disjuncts(cs, last);
}

/// What a disjunction in chunks joins.
proof fn lemma_chunk_disjuncts(cs: Seq<Node>, last: Node)
    ensures
        disjuncts(chunks_disjoined(cs, last)) == all_disjuncts(cs) + disjuncts(last),
    decreases cs.len(),
{
    if cs.len() == 0 {
        assert(Seq::<Node>::empty() + disjuncts(last) =~= disjuncts(last));
    } else {
        let k = next_chunk(cs);
        let no = Node::Const(Lit::Bool(false));
        let first = cs.subrange(0, k);
        let rest = cs.subrange(k, cs.len() as int);
        lemma_disjuncts_of(first, no);
        lemma_chunk_disjuncts(rest, last);
        lemma_all_disjuncts_split(cs, k);
        assert(disjuncts(no) =~= Seq::empty());
        assert(disjuncts(chunks_disjoined(cs, last)) =~= all_disjuncts(cs) + disjuncts(last));
    }
}

/// Whether a reading of expressions as truth values takes conditionals for what they
/// are.
pub open spec fn reads_if(v: spec_fn(Node) -> bool) -> bool {
    (forall|n: Node|
        #![trigger v(n)]
        n matches Node::If { cond, then_branch, else_branch } ==> v(n) == if v(*cond) {
            v(*then_branch)
        } else {
            v(*else_branch)
        }) && v(Node::Const(Lit::Bool(true)))
}

/// What a chain means.
proof fn lemma_chain_means(v: spec_fn(Node) -> bool, cs: Seq<Node>, last: Node)
    requires
        reads_if(v),
    ensures
        v(true_chain(cs, last)) == (some_holds(v, cs) || v(last)),
    decreases cs.len(),
{
    if cs.len() > 0 {
        let rest = cs.subrange(1, cs.len() as int);
        lemma_chain_means(v, rest, last);
        lemma_some_holds(v, cs, 1);
        assert(some_holds(v, cs.subrange(0, 1)) == v(cs[0])) by {
            assert(cs.subrange(0, 1)[0] == cs[0]);
        }
        let n = true_chain(cs, last);
        assert(v(n) == if v(cs[0]) {
            v(Node::Const(Lit::Bool(true)))
        } else {
            v(true_chain(rest, last))
        });
    }
}

/// A chain means the same before and after flattening.
pub proof fn law_flattening_keeps_what_a_chain_means(
    v: spec_fn(Node) -> bool,
    cs: Seq<Node>,
    last: Node,
)
    requires
        reads_if(v),
        reads_or(v),
        ifs(last) == 0,
    ensures
        v(nesting_flattened(true_chain(cs, last))) == v(true_chain(cs, last)),
{
    lemma_true_chain(cs, last, Seq::empty());
    assert(Seq::<Node>::empty() + cs =~= cs);
    lemma_chain_means(v, cs, last);
    law_or_chain_means_one_holds(v, cs, last);
}

} // verus!
