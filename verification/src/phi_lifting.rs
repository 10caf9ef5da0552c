//! Handing on the variables that branches bind anew.
//!
//! A branch that binds a variable anew does so for itself alone. Where the
//! expression behind it reads the variable, the branch is made to return it.

use crate::ir::{clone_names, IRNode, Node};
use crate::parts::{is_branching, is_control, map_within, Leaves, Within};
use crate::sorting::insert_name;
use crate::traverse::{any_node, contains_name, free_vars, Rewrite, Test};
use crate::types::{Name, TempId};
use vstd::prelude::*;

verus! {

/// Whether the expression itself binds the variable, or writes back to it.
pub open spec fn rebinds_here(n: Node, x: Name) -> bool {
    match n {
        Node::Let { pattern, .. } => pattern.contains(x),
        Node::WriteBack { parent, .. } => parent == x,
        _ => false,
    }
}

/// Whether a binding or a write-back inside the expression changes the variable.
pub open spec fn rebinds(n: Node, x: Name) -> bool {
    n.any(|m: Node| rebinds_here(m, x))
}

/// The test for a binding of a variable.
struct Rebinds<'a> {
    x: &'a TempId,
}

impl<'a> Test for Rebinds<'a> {
    closed spec fn holds(&self, n: Node) -> bool {
        rebinds_here(n, self.x@)
    }

    fn check(&self, n: &IRNode) -> (r: bool) {
        match n {
            IRNode::Let { pattern, .. } => contains_name(pattern, self.x),
            IRNode::WriteBack { parent, .. } => *parent == *self.x,
            _ => false,
        }
    }
}

/// Whether a binding or a write-back inside the expression changes the variable.
fn rebinds_name(node: &IRNode, x: &TempId) -> (r: bool)
    ensures
        r == rebinds(node@, x@),
{
    let t = Rebinds { x };
    assert((|n: Node| t.holds(n)) =~= (|n: Node| rebinds_here(n, x@)));
    any_node(node, &t)
}

/// Whether one of the sides of a branch changes the variable.
pub open spec fn side_rebinds(n: Node, x: Name) -> bool {
    exists|i: int| 1 <= i < n.kids().len() && rebinds(#[trigger] n.kids()[i], x)
}

/// Whether one of the sides of a branch changes the variable.
fn some_side_rebinds(node: &IRNode, x: &TempId) -> (r: bool)
    ensures
        r == side_rebinds(node@, x@),
{
    let ks = node.children();
    let mut i: usize = 1;
    while i < ks.len()
        invariant
            1 <= i,
            ks@.len() == node@.kids().len(),
            forall|j: int| 0 <= j < ks@.len() ==> (#[trigger] ks@[j])@ == node@.kids()[j],
            forall|j: int| 1 <= j < i && j < ks@.len() ==> !rebinds(#[trigger] node@.kids()[j], x@),
        decreases ks.len() - i,
    {
        assert(ks@[i as int]@ == node@.kids()[i as int]);
        if rebinds_name(ks[i], x) {
            return true;
        }
        i += 1;
    }
    false
}

/// Whether the branch has to hand the variable on: a side changes it, the
/// expression behind reads it, and the pattern does not bind it.
pub open spec fn handed_on(pattern: Seq<Name>, v: Node, body: Node) -> spec_fn(Name) -> bool {
    |x: Name| body.free(x) && side_rebinds(v, x) && !pattern.contains(x)
}

/// The variables that the branch has to hand on, in order.
fn phi_candidates(pattern: &Vec<TempId>, v: &IRNode, body: &IRNode) -> (r: Vec<TempId>)
    ensures
        crate::ir::names(r@) == crate::sorting::ordered(
            handed_on(crate::ir::names(pattern@), v@, body@),
        ),
        crate::sorting::lists(
            crate::ir::names(r@),
            handed_on(crate::ir::names(pattern@), v@, body@),
        ),
{
    let ghost p = handed_on(crate::ir::names(pattern@), v@, body@);
    let frees = free_vars(body);
    let ghost fs = crate::ir::names(frees@);
    let mut out: Vec<TempId> = Vec::new();
    let mut i: usize = 0;
    while i < frees.len()
        invariant
            i <= frees.len(),
            p == handed_on(crate::ir::names(pattern@), v@, body@),
            fs == crate::ir::names(frees@),
            forall|x: Name| #[trigger] fs.contains(x) <==> body@.free(x),
            crate::sorting::in_order(crate::ir::names(out@)),
            forall|x: Name|
                #[trigger] crate::ir::names(out@).contains(x) <==> p(x) && fs.subrange(
                    0,
                    i as int,
                ).contains(x),
        decreases frees.len() - i,
    {
        let x = &frees[i];
        let ghost done = fs.subrange(0, i as int);
        let ghost next = fs.subrange(0, i + 1);
        assert(fs[i as int] == x@);
        assert(fs.contains(x@));
        proof {
            assert forall|y: Name| #[trigger] next.contains(y) <==> done.contains(y) || y == x@ by {
                if done.contains(y) {
                    let k = choose|k: int| 0 <= k < done.len() && done[k] == y;
                    assert(next[k] == y);
                }
                if y == x@ {
                    assert(next[i as int] == y);
                }
                if next.contains(y) {
                    let k = choose|k: int| 0 <= k < next.len() && next[k] == y;
                    if k < i {
                        assert(done[k] == y);
                    }
                }
            }
        }
        let hit = some_side_rebinds(v, x) && !contains_name(pattern, x);
        assert(hit == p(x@));
        if hit {
            insert_name(&mut out, x);
        }
        i += 1;
    }
    proof {
        let s = crate::ir::names(out@);
        assert(fs.subrange(0, i as int) =~= fs);
        assert(crate::sorting::lists(s, p));
        crate::sorting::lemma_ordered(s, p);
    }
    out
}

/// The variables.
pub open spec fn var_nodes(xs: Seq<Name>) -> Seq<Node> {
    Seq::new(xs.len(), |i: int| Node::Var(xs[i]))
}

/// The leaf of a branch that returns the variables as well. Without a pattern the
/// value of the leaf is dropped; a pattern of one name takes it whole; a longer
/// one takes it apart.
pub open spec fn yielding(n: Node, pattern: Seq<Name>, phis: Seq<Name>) -> Node {
    if pattern.len() == 0 {
        Node::Let {
            pattern: Seq::empty(),
            value: Box::new(n),
            body: Box::new(
                if phis.len() == 1 {
                    Node::Var(phis[0])
                } else {
                    Node::Tuple(var_nodes(phis))
                },
            ),
        }
    } else if pattern.len() > 1 && n is Tuple {
        Node::Tuple(n->Tuple_0 + var_nodes(phis))
    } else {
        Node::Tuple(seq![n] + var_nodes(phis))
    }
}

/// The leaves of an expression that return the variables as well.
pub open spec fn yields(pattern: Seq<Name>, phis: Seq<Name>) -> spec_fn(Node) -> Node {
    |m: Node|
        if crate::parts::controls(m) {
            m
        } else {
            yielding(m, pattern, phis)
        }
}

/// The expression whose leaves return the variables as well.
pub open spec fn all_yielding(n: Node, pattern: Seq<Name>, phis: Seq<Name>) -> Node {
    n.map_in(|m: Node, i: int| crate::parts::at_leaf(m, i), yields(pattern, phis))
}

/// The step that makes a leaf return the variables as well.
struct Yield<'a> {
    pattern: &'a Vec<TempId>,
    phis: &'a Vec<TempId>,
}

impl<'a> Rewrite for Yield<'a> {
    closed spec fn accepts(&self, n: Node) -> bool {
        true
    }

    closed spec fn step(&self, n: Node) -> Node {
        if crate::parts::controls(n) {
            n
        } else {
            yielding(n, crate::ir::names(self.pattern@), crate::ir::names(self.phis@))
        }
    }

    fn apply(&self, n: IRNode) -> (r: IRNode) {
        if is_control(&n) {
            return n;
        }
        assert(crate::ir::names(self.pattern@).len() == self.pattern@.len());
        assert(crate::ir::names(self.phis@).len() == self.phis@.len());
        append_yield(n, self.pattern, self.phis)
    }
}

/// Adds the variables to a list of expressions.
pub fn push_vars(elems: &mut Vec<IRNode>, phis: &Vec<TempId>)
    ensures
        IRNode::views(final(elems)@) == IRNode::views(old(elems)@) + var_nodes(
            crate::ir::names(phis@),
        ),
{
    let ghost start = IRNode::views(elems@);
    let ghost vs = var_nodes(crate::ir::names(phis@));
    let mut i: usize = 0;
    assert(start + vs.subrange(0, 0) =~= start);
    while i < phis.len()
        invariant
            i <= phis.len(),
            vs == var_nodes(crate::ir::names(phis@)),
            vs.len() == phis@.len(),
            IRNode::views(elems@) == start + vs.subrange(0, i as int),
        decreases phis.len() - i,
    {
        let ghost before = elems@;
        let v = IRNode::Var(phis[i].clone());
        assert(v@ == vs[i as int]);
        elems.push(v);
        assert(IRNode::views(elems@) =~= IRNode::views(before).push(v@));
        assert(IRNode::views(elems@) =~= start + vs.subrange(0, i + 1));
        i += 1;
    }
    assert(vs.subrange(0, i as int) =~= vs);
}

/// Makes a leaf return the variables as well.
fn append_yield(n: IRNode, pattern: &Vec<TempId>, phis: &Vec<TempId>) -> (r: IRNode)
    ensures
        r@ == yielding(n@, crate::ir::names(pattern@), crate::ir::names(phis@)),
{
    assert(crate::ir::names(pattern@).len() == pattern@.len());
    assert(crate::ir::names(phis@).len() == phis@.len());
    if pattern.len() == 0 {
        let yielded = if phis.len() == 1 {
            IRNode::Var(phis[0].clone())
        } else {
            let mut elems: Vec<IRNode> = Vec::new();
            assert(IRNode::views(elems@) =~= Seq::empty());
            push_vars(&mut elems, phis);
            assert(IRNode::views(elems@) =~= var_nodes(crate::ir::names(phis@)));
            IRNode::Tuple(elems)
        };
        let ghost fs = crate::ir::names(phis@);
        assert(yielded@ == if fs.len() == 1 {
            Node::Var(fs[0])
        } else {
            Node::Tuple(var_nodes(fs))
        });
        let r = IRNode::Let {
            pattern: Vec::new(),
            value: Box::new(n),
            body: Box::new(yielded),
        };
        assert(crate::ir::names(r->Let_pattern@) =~= Seq::empty());
        return r;
    }
    if pattern.len() > 1 {
        match n {
            IRNode::Tuple(elems) => {
                let mut all = elems;
                push_vars(&mut all, phis);
                return IRNode::Tuple(all);
            },
            other => {
                return append_to_value(other, phis);
            },
        }
    }
    append_to_value(n, phis)
}

/// The tuple of an expression and the variables.
fn append_to_value(n: IRNode, phis: &Vec<TempId>) -> (r: IRNode)
    ensures
        r@ == Node::Tuple(seq![n@] + var_nodes(crate::ir::names(phis@))),
{
    let mut elems: Vec<IRNode> = Vec::new();
    elems.push(n);
    assert(IRNode::views(elems@) =~= seq![n@]);
    push_vars(&mut elems, phis);
    IRNode::Tuple(elems)
}

/// A binding of a branch that hands on the variables that it has to.
pub open spec fn handing_on(pattern: Seq<Name>, v: Node, body: Node) -> Node {
    let phis = crate::sorting::ordered(handed_on(pattern, v, body));
    if phis.len() == 0 {
        Node::Let { pattern, value: Box::new(v), body: Box::new(body) }
    } else {
        Node::Let {
            pattern: pattern + phis,
            value: Box::new(all_yielding(v, pattern, phis)),
            body: Box::new(body),
        }
    }
}

/// Makes a bound branch hand on the variables that it has to.
fn lift_phis(pattern: Vec<TempId>, v: IRNode, body: IRNode) -> (r: IRNode)
    ensures
        r@ == handing_on(crate::ir::names(pattern@), v@, body@),
{
    let phis = phi_candidates(&pattern, &v, &body);
    let ghost ps = crate::ir::names(pattern@);
    let ghost fs = crate::ir::names(phis@);
    assert(fs.len() == phis@.len());
    if phis.len() == 0 {
        return IRNode::Let { pattern, value: Box::new(v), body: Box::new(body) };
    }
    let w = Leaves;
    let t = Yield { pattern: &pattern, phis: &phis };
    assert((|m: Node, i: int| Within::enters(&w, m, i)) =~= (|m: Node, i: int|
        crate::parts::at_leaf(m, i)));
    assert((|n: Node| t.step(n)) =~= yields(ps, fs));
    let value = map_within(&v, &w, &t);
    let mut all = clone_names(&pattern);
    let ghost start = all@;
    let mut i: usize = 0;
    while i < phis.len()
        invariant
            i <= phis.len(),
            fs == crate::ir::names(phis@),
            crate::ir::names(all@) == crate::ir::names(start) + fs.subrange(0, i as int),
        decreases phis.len() - i,
    {
        let ghost before = all@;
        all.push(phis[i].clone());
        assert(crate::ir::names(all@) =~= crate::ir::names(before).push(fs[i as int]));
        assert(crate::ir::names(all@) =~= crate::ir::names(start) + fs.subrange(0, i + 1));
        i += 1;
    }
    assert(fs.subrange(0, i as int) =~= fs);
    assert(crate::ir::names(start) =~= ps);
    IRNode::Let { pattern: all, value: Box::new(value), body: Box::new(body) }
}

/// The expression whose bound branches hand on the variables that they have to.
/// Bindings and branches that stand inside other expressions are walked as deep as
/// given.
pub open spec fn lifted(n: Node, depth: nat) -> Node
    decreases 2 * depth, n, 1nat,
{
    match n {
        Node::Let { pattern, value, body } => {
            let v = lifted(*value, depth);
            let b = lifted(*body, depth);
            if crate::parts::branching(v) {
                handing_on(pattern, v, b)
            } else {
                Node::Let { pattern, value: Box::new(v), body: Box::new(b) }
            }
        },
        _ => if crate::parts::branching(n) {
            n.with_kids(lifted_kids(n, depth))
        } else if depth == 0 {
            n
        } else {
            n.map(lifting((depth - 1) as nat))
        },
    }
}

/// The direct subexpressions whose bound branches hand on what they have to.
pub open spec fn lifted_kids(n: Node, depth: nat) -> Seq<Node>
    decreases 2 * depth, n, 0nat,
{
    proof {
        n.lemma_kids_decrease();
    }
    Seq::new(
        n.kids().len(),
        |i: int|
            if 0 <= i < n.kids().len() {
                lifted(n.kids()[i], depth)
            } else {
                arbitrary()
            },
    )
}

/// The step for bindings and branches inside other expressions.
pub open spec fn lifting(depth: nat) -> spec_fn(Node) -> Node
    decreases 2 * depth + 1, Node::OptionNone, 0nat,
{
    |m: Node|
        if crate::parts::controls(m) {
            lifted(m, depth)
        } else {
            m
        }
}

/// Makes bound branches hand on the variables that they have to.
fn phi_lift_walk(node: &IRNode, depth: u64) -> (r: IRNode)
    ensures
        r@ == lifted(node@, depth as nat),
    decreases 2 * depth, node@, 1nat,
{
    match node {
        IRNode::Let { pattern, value, body } => {
            let v = phi_lift_walk(value, depth);
            let b = phi_lift_walk(body, depth);
            if is_branching(&v) {
                return lift_phis(clone_names(pattern), v, b);
            }
            IRNode::Let { pattern: clone_names(pattern), value: Box::new(v), body: Box::new(b) }
        },
        _ => {
            if is_branching(node) {
                return phi_lift_kids(node, depth);
            }
            if depth == 0 {
                return node.clone();
            }
            phi_lift_inside(node, depth - 1)
        },
    }
}

/// Walks the direct subexpressions of a branch.
fn phi_lift_kids(node: &IRNode, depth: u64) -> (r: IRNode)
    ensures
        r@ == node@.with_kids(lifted_kids(node@, depth as nat)),
    decreases 2 * depth, node@, 0nat,
{
    let ks = node.children();
    let mut out: Vec<IRNode> = Vec::new();
    let mut i: usize = 0;
    proof {
        node@.lemma_kids_decrease();
    }
    while i < ks.len()
        invariant
            i <= ks.len(),
            out@.len() == i,
            ks@.len() == node@.kids().len(),
            forall|j: int| 0 <= j < ks@.len() ==> (#[trigger] ks@[j])@ == node@.kids()[j],
            forall|j: int|
                0 <= j < i ==> (#[trigger] out@[j])@ == lifted(node@.kids()[j], depth as nat),
            forall|j: int| 0 <= j < node@.kids().len() ==> decreases_to!(
                node@ => #[trigger] node@.kids()[j]
            ),
        decreases ks.len() - i,
    {
        assert(ks@[i as int]@ == node@.kids()[i as int]);
        out.push(phi_lift_walk(ks[i], depth));
        i += 1;
    }
    assert(IRNode::views(out@) =~= lifted_kids(node@, depth as nat));
    node.with_children(out)
}

/// Walks the bindings and branches inside an expression.
fn phi_lift_inside(node: &IRNode, depth: u64) -> (r: IRNode)
    ensures
        r@ == node@.map(lifting(depth as nat)),
    decreases 2 * depth + 1, node@, 0nat,
{
    let ghost f = lifting(depth as nat);
    let ks = node.children();
    let mut out: Vec<IRNode> = Vec::new();
    let mut i: usize = 0;
    proof {
        node@.lemma_kids_decrease();
    }
    while i < ks.len()
        invariant
            i <= ks.len(),
            out@.len() == i,
            f == lifting(depth as nat),
            ks@.len() == node@.kids().len(),
            forall|j: int| 0 <= j < ks@.len() ==> (#[trigger] ks@[j])@ == node@.kids()[j],
            forall|j: int| 0 <= j < i ==> (#[trigger] out@[j])@ == node@.kids()[j].map(f),
            forall|j: int| 0 <= j < node@.kids().len() ==> decreases_to!(
                node@ => #[trigger] node@.kids()[j]
            ),
        decreases ks.len() - i,
    {
        assert(ks@[i as int]@ == node@.kids()[i as int]);
        out.push(phi_lift_inside(ks[i], depth));
        i += 1;
    }
    assert(IRNode::views(out@) =~= node@.mapped_kids(f));
    let rebuilt = node.with_children(out);
    if is_control(&rebuilt) {
        phi_lift_walk(&rebuilt, depth)
    } else {
        rebuilt
    }
}

/// The expression after at most the given number of rounds; a round that changes
/// nothing is the last.
pub open spec fn lifted_rounds(n: Node, rounds: nat) -> Node
    decreases rounds,
{
    if rounds == 0 {
        n
    } else {
        let m = lifted(n, crate::coalesce::NESTING as nat);
        if m == n {
            n
        } else {
            lifted_rounds(m, (rounds - 1) as nat)
        }
    }
}

/// Makes bound branches hand on the variables that they bind anew and that are
/// read behind them, in at most sixteen rounds.
pub fn lift_post_threading_phis(node: IRNode) -> (r: IRNode)
    ensures
        r@ == lifted_rounds(node@, 16),
{
    let ghost goal = lifted_rounds(node@, 16);
    let mut current = node;
    let mut left: usize = 16;
    while left > 0
        invariant
            lifted_rounds(current@, left as nat) == goal,
            goal == lifted_rounds(node@, 16),
        decreases left,
    {
        let next = phi_lift_walk(&current, crate::coalesce::NESTING);
        if next.same(&current) {
            return next;
        }
        current = next;
        left -= 1;
    }
    current
}

/// The free variables of an expression, or of its direct subexpressions from the
/// `k`th on, fit in a list.
proof fn lemma_free_listed(n: Node, k: nat) -> (r: Seq<Name>)
    ensures
        k == 0 ==> forall|x: Name| #[trigger] n.free(x) ==> r.contains(x),
        forall|x: Name, i: int|
            k <= i < n.kids().len() && #[trigger] n.kids()[i].free(x) ==> r.contains(x),
    decreases n, n.kids().len() - k,
{
    n.lemma_kids_decrease();
    if k < n.kids().len() {
        assert(decreases_to!(n => n.kids()[k as int]));
        let a = lemma_free_listed(n.kids()[k as int], 0);
        let b = lemma_free_listed(n, k + 1);
        let here = own_names(n);
        let r = a + b + here;
        assert forall|x: Name, i: int|
            k <= i < n.kids().len() && #[trigger] n.kids()[i].free(x) implies r.contains(x) by {
            if i == k {
                let j = choose|j: int| 0 <= j < a.len() && a[j] == x;
                assert(r[j] == x);
            } else {
                assert(b.contains(x));
                let j = choose|j: int| 0 <= j < b.len() && b[j] == x;
                assert(r[a.len() + j] == x);
            }
        }
        if k == 0 {
            assert forall|x: Name| #[trigger] n.free(x) implies r.contains(x) by {
                if n.uses_here(x) {
                    lemma_own_names(n, x);
                    let j = choose|j: int| 0 <= j < here.len() && here[j] == x;
                    assert(r[a.len() + b.len() + j] == x);
                } else {
                    assert(n.free_in_kid(x));
                    let i = choose|i: int|
                        0 <= i < n.kids().len() && (#[trigger] n.kids()[i]).free(x) && !n.binds(
                            i,
                            x,
                        );
                    assert(n.kids()[i].free(x));
                }
            }
        }
        r
    } else {
        let r = own_names(n);
        assert forall|x: Name| #[trigger] n.free(x) implies k != 0 || r.contains(x) by {
            if k == 0 {
                assert(!n.free_in_kid(x));
                lemma_own_names(n, x);
            }
        }
        r
    }
}

/// The variables that an expression itself names.
spec fn own_names(n: Node) -> Seq<Name> {
    match n {
        Node::Var(x) => seq![x],
        Node::WriteBack { child, parent, .. } => seq![child, parent],
        _ => Seq::empty(),
    }
}

/// The variables that an expression itself names are those that it uses there.
proof fn lemma_own_names(n: Node, x: Name)
    ensures
        n.uses_here(x) ==> own_names(n).contains(x),
{
    match n {
        Node::Var(y) => {
            assert(own_names(n)[0] == y);
        },
        Node::WriteBack { child, parent, .. } => {
            assert(own_names(n)[0] == child);
            assert(own_names(n)[1] == parent);
        },
        _ => {},
    }
}

/// A bound branch binds each variable that a side changes and that is read behind
/// it.
pub proof fn law_changed_variables_are_handed_on(pattern: Seq<Name>, v: Node, body: Node, x: Name)
    requires
        body.free(x),
        side_rebinds(v, x),
    ensures
        handing_on(pattern, v, body)->Let_pattern.contains(x),
        *handing_on(pattern, v, body)->Let_body == body,
{
    let p = handed_on(pattern, v, body);
    let all = lemma_free_listed(body, 0);
    let s = crate::sorting::lemma_listed(all, p);
    crate::sorting::lemma_ordered(s, p);
    let phis = crate::sorting::ordered(p);
    if pattern.contains(x) {
        let k = choose|k: int| 0 <= k < pattern.len() && pattern[k] == x;
        assert((pattern + phis)[k] == x);
    } else {
        assert(p(x));
        assert(phis.contains(x));
        let k = choose|k: int| 0 <= k < phis.len() && phis[k] == x;
        assert((pattern + phis)[pattern.len() + k] == x);
    }
}

} // verus!
