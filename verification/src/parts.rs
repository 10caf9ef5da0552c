//! Walks that enter only some of the subexpressions.

use crate::ir::{IRNode, Node};
use crate::traverse::Rewrite;
use vstd::prelude::*;

verus! {

/// A choice of the direct subexpressions that a walk enters.
pub trait Within {
    /// Whether the walk enters the `i`th direct subexpression.
    spec fn enters(&self, n: Node, i: int) -> bool;

    /// Decides whether the walk enters the `i`th direct subexpression.
    fn enter(&self, n: &IRNode, i: usize) -> (r: bool)
        ensures
            r == self.enters(n@, i as int),
    ;
}

impl Node {
    /// Rewrites the subexpressions that the walk enters, the innermost first.
    pub open spec fn map_in(
        self,
        into: spec_fn(Node, int) -> bool,
        f: spec_fn(Node) -> Node,
    ) -> Node
        decreases self, 1nat,
    {
        f(self.with_kids(self.mapped_in(into, f)))
    }

    /// The direct subexpressions, those that the walk enters rewritten throughout.
    pub open spec fn mapped_in(
        self,
        into: spec_fn(Node, int) -> bool,
        f: spec_fn(Node) -> Node,
    ) -> Seq<Node>
        decreases self, 0nat,
    {
        proof {
            self.lemma_kids_decrease();
        }
        Seq::new(
            self.kids().len(),
            |i: int|
                if 0 <= i < self.kids().len() {
                    if into(self, i) {
                        self.kids()[i].map_in(into, f)
                    } else {
                        self.kids()[i]
                    }
                } else {
                    arbitrary()
                },
        )
    }

    /// Whether a subexpression that the walk enters, or the expression itself, has
    /// the property.
    pub open spec fn any_in(
        self,
        into: spec_fn(Node, int) -> bool,
        p: spec_fn(Node) -> bool,
    ) -> bool
        decreases self, 1nat,
    {
        p(self) || self.any_kid_in(into, p)
    }

    /// Whether something inside a direct subexpression that the walk enters has
    /// the property.
    pub open spec fn any_kid_in(
        self,
        into: spec_fn(Node, int) -> bool,
        p: spec_fn(Node) -> bool,
    ) -> bool
        decreases self, 0nat,
    {
        proof {
            self.lemma_kids_decrease();
        }
        exists|i: int|
            0 <= i < self.kids().len() && into(self, i) && (#[trigger] self.kids()[i]).any_in(
                into,
                p,
            )
    }

    /// The number of subexpressions, the expression itself included.
    pub open spec fn size(self) -> nat
        decreases self, self.kids().len() + 1,
    {
        1 + self.size_from(0)
    }

    /// The number of subexpressions inside the direct subexpressions from the
    /// `k`th on.
    pub open spec fn size_from(self, k: nat) -> nat
        decreases self, self.kids().len() - k,
    {
        if k >= self.kids().len() {
            0
        } else {
            proof {
                self.lemma_kids_decrease();
                assert(decreases_to!(self => self.kids()[k as int]));
            }
            self.kids()[k as int].size() + self.size_from(k + 1)
        }
    }
}

/// Rewrites the subexpressions that the walk enters, the innermost first.
pub fn map_within<W: Within, T: Rewrite>(node: &IRNode, w: &W, t: &T) -> (r: IRNode)
    requires
        forall|n: Node| #[trigger] t.accepts(n),
    ensures
        r@ == node@.map_in(|n: Node, i: int| w.enters(n, i), |n: Node| t.step(n)),
    decreases node@,
{
    let ghost into = |n: Node, i: int| w.enters(n, i);
    let ghost f = |n: Node| t.step(n);
    let ks = node.children();
    let mut out: Vec<IRNode> = Vec::new();
    let mut i: usize = 0;
    proof {
        node@.lemma_kids_decrease();
    }
    while i < ks.len()
        invariant
            i <= ks.len(),
            out@.len() == i,
            into == (|n: Node, i: int| w.enters(n, i)),
            f == (|n: Node| t.step(n)),
            forall|n: Node| #[trigger] t.accepts(n),
            ks@.len() == node@.kids().len(),
            forall|j: int| 0 <= j < ks@.len() ==> (#[trigger] ks@[j])@ == node@.kids()[j],
            forall|j: int| 0 <= j < i ==> (#[trigger] out@[j])@ == node@.mapped_in(into, f)[j],
            forall|j: int| 0 <= j < node@.kids().len() ==> decreases_to!(
                node@ => #[trigger] node@.kids()[j]
            ),
        decreases ks.len() - i,
    {
        assert(ks@[i as int]@ == node@.kids()[i as int]);
        if w.enter(node, i) {
            assert(into(node@, i as int));
            out.push(map_within(ks[i], w, t));
        } else {
            assert(!into(node@, i as int));
            out.push(ks[i].clone());
        }
        i += 1;
    }
    assert(IRNode::views(out@) =~= node@.mapped_in(into, f));
    let rebuilt = node.with_children(out);
    assert(t.accepts(rebuilt@));
    t.apply(rebuilt)
}

/// Takes the size of an expression from a budget; there is nothing left where the
/// expression is larger.
pub fn spend(node: &IRNode, budget: u128) -> (r: Option<u128>)
    ensures
        match r {
            Some(left) => left + node@.size() == budget,
            None => node@.size() > budget,
        },
    decreases node@,
{
    if budget == 0 {
        return None;
    }
    let mut left: u128 = budget - 1;
    let ks = node.children();
    let mut i: usize = 0;
    proof {
        node@.lemma_kids_decrease();
    }
    while i < ks.len()
        invariant
            i <= ks.len(),
            ks@.len() == node@.kids().len(),
            forall|j: int| 0 <= j < ks@.len() ==> (#[trigger] ks@[j])@ == node@.kids()[j],
            node@.size() + left == budget + node@.size_from(i as nat),
            forall|j: int| 0 <= j < node@.kids().len() ==> decreases_to!(
                node@ => #[trigger] node@.kids()[j]
            ),
        decreases ks.len() - i,
    {
        assert(ks@[i as int]@ == node@.kids()[i as int]);
        match spend(ks[i], left) {
            Some(l) => {
                left = l;
            },
            None => {
                return None;
            },
        }
        i += 1;
    }
    Some(left)
}

/// Whether the expression has at most the given number of subexpressions.
pub fn size_at_most(node: &IRNode, limit: usize) -> (r: bool)
    ensures
        r == (node@.size() <= limit),
{
    spend(node, limit as u128).is_some()
}

/// The positions that a body's control flow passes through: bindings and what
/// they bind, conditions and branches, and the bodies of match cases.
pub open spec fn on_spine(n: Node, i: int) -> bool {
    n is Let || n is If || (n is Match && i >= 1)
}

/// The walk along the control flow.
pub struct Spine;

impl Within for Spine {
    open spec fn enters(&self, n: Node, i: int) -> bool {
        on_spine(n, i)
    }

    fn enter(&self, n: &IRNode, i: usize) -> (r: bool) {
        match n {
            IRNode::Let { .. } => true,
            IRNode::If { .. } => true,
            IRNode::Match { .. } => i >= 1,
            _ => false,
        }
    }
}

/// Whether the expression branches.
pub open spec fn branching(n: Node) -> bool {
    n is If || n is Match || n is MatchOption
}

/// Whether the expression branches.
pub fn is_branching(n: &IRNode) -> (r: bool)
    ensures
        r == branching(n@),
{
    match n {
        IRNode::If { .. } => true,
        IRNode::Match { .. } => true,
        IRNode::MatchOption { .. } => true,
        _ => false,
    }
}

/// Whether the expression binds or branches.
pub open spec fn controls(n: Node) -> bool {
    n is Let || branching(n)
}

/// Whether the expression binds or branches.
pub fn is_control(n: &IRNode) -> (r: bool)
    ensures
        r == controls(n@),
{
    match n {
        IRNode::Let { .. } => true,
        _ => is_branching(n),
    }
}

/// The positions that a binding or a branch leaves its value to.
pub open spec fn at_leaf(n: Node, i: int) -> bool {
    (n is Let && i == 1) || (branching(n) && i >= 1)
}

/// The walk to the leaves of bindings and branches.
pub struct Leaves;

impl Within for Leaves {
    open spec fn enters(&self, n: Node, i: int) -> bool {
        at_leaf(n, i)
    }

    fn enter(&self, n: &IRNode, i: usize) -> (r: bool) {
        match n {
            IRNode::Let { .. } => i == 1,
            _ => is_branching(n) && i >= 1,
        }
    }
}

/// The positions whose value the expression evaluates to.
pub open spec fn at_tail(n: Node, i: int) -> bool {
    (n is Let && i == 1) || (n is If && i >= 1) || (n is Match && i >= 1)
}

/// The walk to the tails.
pub struct Tails;

impl Within for Tails {
    open spec fn enters(&self, n: Node, i: int) -> bool {
        at_tail(n, i)
    }

    fn enter(&self, n: &IRNode, i: usize) -> (r: bool) {
        match n {
            IRNode::Let { .. } => i == 1,
            IRNode::If { .. } => i >= 1,
            IRNode::Match { .. } => i >= 1,
            _ => false,
        }
    }
}

} // verus!
