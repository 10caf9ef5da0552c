//! Walks over expression trees: bottom-up rewriting, search, and the variables
//! that an expression uses.

use crate::ir::{IRNode, Node};
use crate::types::{Name, TempId};
use vstd::prelude::*;

verus! {

/// A rewriting step on one expression.
pub trait Rewrite {
    /// The expressions that the step is defined on.
    spec fn accepts(&self, n: Node) -> bool;

    /// What the step makes of an expression.
    spec fn step(&self, n: Node) -> Node;

    /// Performs the step.
    fn apply(&self, n: IRNode) -> (r: IRNode)
        requires
            self.accepts(n@),
        ensures
            r@ == self.step(n@),
    ;
}

/// A test on one expression.
pub trait Test {
    /// Whether the expression passes.
    spec fn holds(&self, n: Node) -> bool;

    /// Performs the test.
    fn check(&self, n: &IRNode) -> (r: bool)
        ensures
            r == self.holds(n@),
    ;
}

impl Node {
    /// Rewrites every subexpression, the innermost first.
    pub open spec fn map(self, f: spec_fn(Node) -> Node) -> Node
        decreases self, 1nat,
    {
        f(self.with_kids(self.mapped_kids(f)))
    }

    /// The direct subexpressions, each rewritten throughout.
    pub open spec fn mapped_kids(self, f: spec_fn(Node) -> Node) -> Seq<Node>
        decreases self, 0nat,
    {
        proof {
            self.lemma_kids_decrease();
        }
        Seq::new(
            self.kids().len(),
            |i: int|
                if 0 <= i < self.kids().len() {
                    self.kids()[i].map(f)
                } else {
                    arbitrary()
                },
        )
    }

    /// Whether `ok` holds of each expression that `map` hands to `f`.
    pub open spec fn map_accepts(
        self,
        f: spec_fn(Node) -> Node,
        ok: spec_fn(Node) -> bool,
    ) -> bool
        decreases self, 1nat,
    {
        self.kids_accept(f, ok) && ok(self.with_kids(self.mapped_kids(f)))
    }

    /// Whether `ok` holds of each expression that `map` hands to `f` inside the
    /// direct subexpressions.
    pub open spec fn kids_accept(
        self,
        f: spec_fn(Node) -> Node,
        ok: spec_fn(Node) -> bool,
    ) -> bool
        decreases self, 0nat,
    {
        proof {
            self.lemma_kids_decrease();
        }
        forall|i: int|
            0 <= i < self.kids().len() ==> (#[trigger] self.kids()[i]).map_accepts(f, ok)
    }

    /// Whether some subexpression, or the expression itself, has the property.
    pub open spec fn any(self, p: spec_fn(Node) -> bool) -> bool
        decreases self, 1nat,
    {
        p(self) || self.any_kid(p)
    }

    /// Whether something inside a direct subexpression has the property.
    pub open spec fn any_kid(self, p: spec_fn(Node) -> bool) -> bool
        decreases self, 0nat,
    {
        proof {
            self.lemma_kids_decrease();
        }
        exists|i: int| 0 <= i < self.kids().len() && (#[trigger] self.kids()[i]).any(p)
    }

    /// Rewriting with a step that leaves no expression with a property, where none
    /// is inside the direct subexpressions, leaves none at all.
    pub proof fn lemma_map_clears(self, f: spec_fn(Node) -> Node, p: spec_fn(Node) -> bool)
        requires
            forall|n: Node| !n.any_kid(p) ==> !(#[trigger] f(n)).any(p),
        ensures
            !self.map(f).any(p),
        decreases self,
    {
        self.lemma_kids_decrease();
        let ks = self.mapped_kids(f);
        assert forall|i: int| 0 <= i < ks.len() implies !(#[trigger] ks[i]).any(p) by {
            self.kids()[i].lemma_map_clears(f, p);
        }
        self.lemma_with_kids(ks);
        assert(!self.with_kids(ks).any_kid(p));
    }

    /// Rewriting with a step that changes only expressions with a property leaves an
    /// expression alone that has none inside.
    pub proof fn lemma_map_unchanged(self, f: spec_fn(Node) -> Node, p: spec_fn(Node) -> bool)
        requires
            forall|n: Node| !p(n) ==> #[trigger] f(n) == n,
            !self.any(p),
        ensures
            self.map(f) == self,
        decreases self,
    {
        self.lemma_kids_decrease();
        assert forall|i: int| 0 <= i < self.kids().len() implies #[trigger] self.mapped_kids(f)[i]
            == self.kids()[i] by {
            assert(!self.kids()[i].any(p));
            self.kids()[i].lemma_map_unchanged(f, p);
        }
        assert(self.mapped_kids(f) =~= self.kids());
        self.lemma_with_own_kids();
    }

    /// Rewriting with a step that accepts every expression.
    pub proof fn lemma_map_accepts_all(self, f: spec_fn(Node) -> Node, ok: spec_fn(Node) -> bool)
        requires
            forall|n: Node| #[trigger] ok(n),
        ensures
            self.map_accepts(f, ok),
        decreases self,
    {
        self.lemma_kids_decrease();
        assert forall|i: int| 0 <= i < self.kids().len() implies (
        #[trigger] self.kids()[i]).map_accepts(f, ok) by {
            self.kids()[i].lemma_map_accepts_all(f, ok);
        }
        assert(self.kids_accept(f, ok));
    }
}

/// Rewrites every subexpression with `t`, the innermost first.
pub fn map_nodes<T: Rewrite>(node: &IRNode, t: &T) -> (r: IRNode)
    requires
        node@.map_accepts(|n: Node| t.step(n), |n: Node| t.accepts(n)),
    ensures
        r@ == node@.map(|n: Node| t.step(n)),
    decreases node@,
{
    let ghost f = |n: Node| t.step(n);
    let ghost ok = |n: Node| t.accepts(n);
    let ks = node.children();
    let mut out: Vec<IRNode> = Vec::new();
    let mut i: usize = 0;
    proof {
        node@.lemma_kids_decrease();
    }
    while i < ks.len()
        invariant
            i <= ks.len(),
            out@.len() == i,
            f == (|n: Node| t.step(n)),
            ok == (|n: Node| t.accepts(n)),
            node@.kids_accept(f, ok),
            ks@.len() == node@.kids().len(),
            forall|j: int| 0 <= j < ks@.len() ==> (#[trigger] ks@[j])@ == node@.kids()[j],
            forall|j: int| 0 <= j < i ==> (#[trigger] out@[j])@ == node@.kids()[j].map(f),
            forall|j: int| 0 <= j < node@.kids().len() ==> decreases_to!(
                node@ => #[trigger] node@.kids()[j]
            ),
        decreases ks.len() - i,
    {
        assert(ks@[i as int]@ == node@.kids()[i as int]);
        assert(node@.kids()[i as int].map_accepts(f, ok));
        out.push(map_nodes(ks[i], t));
        i += 1;
    }
    assert(IRNode::views(out@) =~= node@.mapped_kids(f));
    proof {
        assert(ok(node@.with_kids(node@.mapped_kids(f))));
    }
    t.apply(node.with_children(out))
}

/// Whether some subexpression, or the expression itself, passes the test.
pub fn any_node<T: Test>(node: &IRNode, t: &T) -> (r: bool)
    ensures
        r == node@.any(|n: Node| t.holds(n)),
    decreases node@,
{
    let ghost p = |n: Node| t.holds(n);
    if t.check(node) {
        assert(p(node@));
        return true;
    }
    assert(!p(node@));
    let ks = node.children();
    let mut i: usize = 0;
    proof {
        node@.lemma_kids_decrease();
    }
    while i < ks.len()
        invariant
            i <= ks.len(),
            p == (|n: Node| t.holds(n)),
            ks@.len() == node@.kids().len(),
            forall|j: int| 0 <= j < ks@.len() ==> (#[trigger] ks@[j])@ == node@.kids()[j],
            forall|j: int| 0 <= j < i ==> !(#[trigger] node@.kids()[j]).any(p),
            forall|j: int| 0 <= j < node@.kids().len() ==> decreases_to!(
                node@ => #[trigger] node@.kids()[j]
            ),
        decreases ks.len() - i,
    {
        assert(ks@[i as int]@ == node@.kids()[i as int]);
        if any_node(ks[i], t) {
            assert(node@.any_kid(p));
            return true;
        }
        i += 1;
    }
    assert(!node@.any_kid(p));
    false
}

impl Node {
    /// The first subexpression with the property, an expression before its parts
    /// and the parts in order.
    pub open spec fn first(self, p: spec_fn(Node) -> bool) -> Option<Node>
        decreases self, self.kids().len() + 1,
    {
        if p(self) {
            Some(self)
        } else {
            self.first_from(p, 0)
        }
    }

    /// The first subexpression with the property inside the direct
    /// subexpressions from the `k`th on.
    pub open spec fn first_from(self, p: spec_fn(Node) -> bool, k: nat) -> Option<Node>
        decreases self, self.kids().len() - k,
    {
        if k >= self.kids().len() {
            None
        } else {
            proof {
                self.lemma_kids_decrease();
                assert(decreases_to!(self => self.kids()[k as int]));
            }
            match self.kids()[k as int].first(p) {
                Some(n) => Some(n),
                None => self.first_from(p, k + 1),
            }
        }
    }
}

/// The first subexpression that passes the test.
pub fn find_node<'a, T: Test>(node: &'a IRNode, t: &T) -> (r: Option<&'a IRNode>)
    ensures
        match r {
            Some(n) => node@.first(|n: Node| t.holds(n)) == Some(n@) && t.holds(n@),
            None => node@.first(|n: Node| t.holds(n)) is None,
        },
    decreases node@,
{
    let ghost p = |n: Node| t.holds(n);
    if t.check(node) {
        assert(p(node@));
        return Some(node);
    }
    assert(!p(node@));
    let ks = node.children();
    let mut i: usize = 0;
    proof {
        node@.lemma_kids_decrease();
    }
    while i < ks.len()
        invariant
            i <= ks.len(),
            p == (|n: Node| t.holds(n)),
            ks@.len() == node@.kids().len(),
            forall|j: int| 0 <= j < ks@.len() ==> (#[trigger] ks@[j])@ == node@.kids()[j],
            node@.first(p) == node@.first_from(p, i as nat),
            forall|j: int| 0 <= j < node@.kids().len() ==> decreases_to!(
                node@ => #[trigger] node@.kids()[j]
            ),
        decreases ks.len() - i,
    {
        assert(ks@[i as int]@ == node@.kids()[i as int]);
        if let Some(n) = find_node(ks[i], t) {
            return Some(n);
        }
        i += 1;
    }
    None
}

/// Whether a list of names holds a name.
pub fn contains_name(v: &Vec<TempId>, x: &TempId) -> (r: bool)
    ensures
        r == crate::ir::names(v@).contains(x@),
{
    let mut i: usize = 0;
    while i < v.len()
        invariant
            i <= v.len(),
            forall|j: int| 0 <= j < i ==> (#[trigger] v@[j])@ != x@,
        decreases v.len() - i,
    {
        if v[i] == *x {
            assert(crate::ir::names(v@)[i as int] == x@);
            return true;
        }
        i += 1;
    }
    false
}

/// Whether a name is the given text.
pub fn name_is(x: &TempId, text: &str) -> (r: bool)
    ensures
        r == (x@ == text@),
{
    let t: String = text.to_owned();
    *x == t
}

/// A test for a use of one variable: as a value, or at either end of a write-back.
pub struct Uses<'a> {
    pub name: &'a TempId,
}

impl Node {
    /// Whether the expression itself, apart from its subexpressions, uses the variable.
    pub open spec fn uses_here(self, x: Name) -> bool {
        match self {
            Node::Var(v) => v == x,
            Node::WriteBack { child, parent, .. } => child == x || parent == x,
            _ => false,
        }
    }

    /// Whether the variable is used anywhere in the expression.
    pub open spec fn uses(self, x: Name) -> bool {
        self.any(|n: Node| n.uses_here(x))
    }
}

impl<'a> Test for Uses<'a> {
    open spec fn holds(&self, n: Node) -> bool {
        n.uses_here(self.name@)
    }

    fn check(&self, n: &IRNode) -> (r: bool) {
        match n {
            IRNode::Var(v) => *v == *self.name,
            IRNode::WriteBack { child, parent, .. } => *child == *self.name || *parent
                == *self.name,
            _ => false,
        }
    }
}

/// Whether the variable is used anywhere in the expression.
pub fn uses_name(node: &IRNode, name: &TempId) -> (r: bool)
    ensures
        r == node@.uses(name@),
{
    let t = Uses { name };
    assert((|n: Node| t.holds(n)) =~= (|n: Node| n.uses_here(name@)));
    any_node(node, &t)
}

/// A test for a call of one of some functions.
pub struct CallsOneOf<'a> {
    pub ids: &'a Vec<usize>,
}

impl Node {
    /// Whether the expression itself calls one of the functions.
    pub open spec fn is_call_of(self, ids: Seq<usize>) -> bool {
        self matches Node::Call { function, .. } && ids.contains(function)
    }

    /// Whether one of the functions is called anywhere in the expression.
    pub open spec fn calls_one_of(self, ids: Seq<usize>) -> bool {
        self.any(|n: Node| n.is_call_of(ids))
    }

    /// Whether the function is called anywhere in the expression.
    pub open spec fn calls(self, id: usize) -> bool {
        self.calls_one_of(seq![id])
    }
}

/// Whether a list holds an identifier.
pub fn contains_id(ids: &Vec<usize>, id: usize) -> (r: bool)
    ensures
        r == ids@.contains(id),
{
    let mut i: usize = 0;
    while i < ids.len()
        invariant
            i <= ids.len(),
            forall|j: int| 0 <= j < i ==> ids@[j] != id,
        decreases ids.len() - i,
    {
        if ids[i] == id {
            return true;
        }
        i += 1;
    }
    false
}

impl<'a> Test for CallsOneOf<'a> {
    open spec fn holds(&self, n: Node) -> bool {
        n.is_call_of(self.ids@)
    }

    fn check(&self, n: &IRNode) -> (r: bool) {
        match n {
            IRNode::Call { function, .. } => contains_id(self.ids, *function),
            _ => false,
        }
    }
}

/// Whether one of the functions is called anywhere in the expression.
pub fn calls_one_of(node: &IRNode, ids: &Vec<usize>) -> (r: bool)
    ensures
        r == node@.calls_one_of(ids@),
{
    let t = CallsOneOf { ids };
    assert((|n: Node| t.holds(n)) =~= (|n: Node| n.is_call_of(ids@)));
    any_node(node, &t)
}

/// Whether the function is called anywhere in the expression.
pub fn calls_function(node: &IRNode, id: usize) -> (r: bool)
    ensures
        r == node@.calls(id),
{
    let mut ids: Vec<usize> = Vec::new();
    ids.push(id);
    assert(ids@ =~= seq![id]);
    calls_one_of(node, &ids)
}

/// Adds the variables that the expression uses to a list of names.
fn add_used(node: &IRNode, out: &mut Vec<TempId>)
    ensures
        forall|x: Name| #[trigger]
            crate::ir::names(final(out)@).contains(x) <==> crate::ir::names(old(out)@).contains(x)
                || node@.uses(x),
    decreases node@,
{
    let ghost start = out@;
    match node {
        IRNode::Var(v) => {
            push_name(out, v);
        },
        IRNode::WriteBack { child, parent, .. } => {
            push_name(out, child);
            push_name(out, parent);
        },
        _ => {},
    }
    assert(forall|x: Name| #[trigger]
        crate::ir::names(out@).contains(x) <==> crate::ir::names(start).contains(x)
            || node@.uses_here(x));
    let ks = node.children();
    let mut i: usize = 0;
    proof {
        node@.lemma_kids_decrease();
    }
    while i < ks.len()
        invariant
            i <= ks.len(),
            ks@.len() == node@.kids().len(),
            forall|j: int| 0 <= j < ks@.len() ==> (#[trigger] ks@[j])@ == node@.kids()[j],
            forall|x: Name| #[trigger]
                crate::ir::names(out@).contains(x) <==> crate::ir::names(start).contains(x)
                    || node@.uses_here(x) || exists|j: int|
                    0 <= j < i && (#[trigger] node@.kids()[j]).uses(x),
            forall|j: int| 0 <= j < node@.kids().len() ==> decreases_to!(
                node@ => #[trigger] node@.kids()[j]
            ),
        decreases ks.len() - i,
    {
        assert(ks@[i as int]@ == node@.kids()[i as int]);
        let ghost before = out@;
        add_used(ks[i], out);
        assert forall|x: Name| #[trigger]
            crate::ir::names(out@).contains(x) <==> crate::ir::names(start).contains(x)
                || node@.uses_here(x) || exists|j: int|
                0 <= j < i + 1 && (#[trigger] node@.kids()[j]).uses(x) by {
            assert(crate::ir::names(out@).contains(x) <==> crate::ir::names(before).contains(x)
                || node@.kids()[i as int].uses(x));
        }
        i += 1;
    }
    assert forall|x: Name| #[trigger]
        crate::ir::names(out@).contains(x) <==> crate::ir::names(start).contains(x)
            || node@.uses(x) by {
        let p = |n: Node| n.uses_here(x);
        assert(node@.uses(x) == node@.any(p));
        assert(forall|j: int| 0 <= j < node@.kids().len() ==> (#[trigger] node@.kids()[j]).uses(x)
            == node@.kids()[j].any(p));
        if node@.uses_here(x) {
            assert(p(node@));
        }
        if exists|j: int| 0 <= j < i && (#[trigger] node@.kids()[j]).uses(x) {
            let j = choose|j: int| 0 <= j < i && (#[trigger] node@.kids()[j]).uses(x);
            assert(node@.kids()[j].any(p));
            assert(node@.any_kid(p));
        }
        if node@.any(p) && !p(node@) {
            assert(node@.any_kid(p));
            let j = choose|j: int| 0 <= j < node@.kids().len() && (#[trigger] node@.kids()[j]).any(p);
            assert(node@.kids()[j].uses(x));
        }
    }
}

/// Adds a name to a list, unless it is there already.
pub fn push_name(out: &mut Vec<TempId>, x: &TempId)
    ensures
        forall|y: Name| #[trigger]
            crate::ir::names(final(out)@).contains(y) <==> crate::ir::names(old(out)@).contains(y)
                || y == x@,
        crate::ir::names(final(out)@) == if crate::ir::names(old(out)@).contains(x@) {
            crate::ir::names(old(out)@)
        } else {
            crate::ir::names(old(out)@).push(x@)
        },
{
    if contains_name(out, x) {
        return;
    }
    let ghost before = out@;
    out.push(x.clone());
    assert(crate::ir::names(out@) =~= crate::ir::names(before).push(x@));
    assert forall|y: Name| #[trigger]
        crate::ir::names(out@).contains(y) <==> crate::ir::names(before).contains(y) || y
            == x@ by {
        let a = crate::ir::names(before);
        if a.contains(y) {
            let k = choose|k: int| 0 <= k < a.len() && a[k] == y;
            assert(a.push(x@)[k] == y);
        }
        if y == x@ {
            assert(a.push(x@)[a.len() as int] == y);
        }
    }
}

/// The variables that the expression uses, each once.
pub fn used_vars(node: &IRNode) -> (r: Vec<TempId>)
    ensures
        forall|x: Name| #[trigger] crate::ir::names(r@).contains(x) <==> node@.uses(x),
{
    let mut out: Vec<TempId> = Vec::new();
    add_used(node, &mut out);
    out
}

impl Node {
    /// Whether the variable is bound around the `i`th direct subexpression.
    pub open spec fn binds(self, i: int, x: Name) -> bool {
        match self {
            Node::Let { pattern, .. } => i == 1 && pattern.contains(x),
            Node::Match { cases, .. } => 1 <= i <= cases.len() && cases[i - 1].1.contains(x),
            Node::MatchOption { binding, .. } => i == 1 && binding == x,
            Node::MutableBorrow { reconstruct_param, .. } => i == 1 && reconstruct_param == x,
            Node::Quantifier { binding, .. } => binding == x,
            _ => false,
        }
    }

    /// Whether the variable occurs free in the expression.
    pub open spec fn free(self, x: Name) -> bool
        decreases self, 1nat,
    {
        self.uses_here(x) || self.free_in_kid(x)
    }

    /// Whether the variable occurs free inside a direct subexpression and is not
    /// bound around it.
    pub open spec fn free_in_kid(self, x: Name) -> bool
        decreases self, 0nat,
    {
        proof {
            self.lemma_kids_decrease();
        }
        exists|i: int|
            0 <= i < self.kids().len() && (#[trigger] self.kids()[i]).free(x) && !self.binds(i, x)
    }
}

/// Whether the variable is bound around the `i`th direct subexpression.
fn is_bound(node: &IRNode, i: usize, x: &TempId) -> (r: bool)
    ensures
        r == node@.binds(i as int, x@),
{
    match node {
        IRNode::Let { pattern, .. } => i == 1 && contains_name(pattern, x),
        IRNode::Match { cases, .. } => {
            assert(IRNode::case_views(cases@).len() == cases@.len());
            if 1 <= i && i <= cases.len() {
                assert(IRNode::case_views(cases@)[i - 1].1 == crate::ir::names(
                    cases@[i - 1].1@,
                ));
                contains_name(&cases[i - 1].1, x)
            } else {
                false
            }
        },
        IRNode::MatchOption { binding, .. } => i == 1 && *binding == *x,
        IRNode::MutableBorrow { reconstruct_param, .. } => i == 1 && *reconstruct_param == *x,
        IRNode::Quantifier { binding, .. } => *binding == *x,
        _ => false,
    }
}

/// The variables that occur free in the expression, each once, in the order of
/// their first occurrence.
pub fn free_vars(node: &IRNode) -> (r: Vec<TempId>)
    ensures
        forall|x: Name| #[trigger] crate::ir::names(r@).contains(x) <==> node@.free(x),
    decreases node@,
{
    let mut out: Vec<TempId> = Vec::new();
    match node {
        IRNode::Var(v) => {
            push_name(&mut out, v);
        },
        IRNode::WriteBack { child, parent, .. } => {
            push_name(&mut out, child);
            push_name(&mut out, parent);
        },
        _ => {},
    }
    assert(forall|x: Name| #[trigger]
        crate::ir::names(out@).contains(x) <==> node@.uses_here(x));
    let ks = node.children();
    let mut i: usize = 0;
    proof {
        node@.lemma_kids_decrease();
    }
    while i < ks.len()
        invariant
            i <= ks.len(),
            ks@.len() == node@.kids().len(),
            forall|j: int| 0 <= j < ks@.len() ==> (#[trigger] ks@[j])@ == node@.kids()[j],
            forall|x: Name| #[trigger]
                crate::ir::names(out@).contains(x) <==> node@.uses_here(x) || exists|j: int|
                    0 <= j < i && (#[trigger] node@.kids()[j]).free(x) && !node@.binds(j, x),
            forall|j: int| 0 <= j < node@.kids().len() ==> decreases_to!(
                node@ => #[trigger] node@.kids()[j]
            ),
        decreases ks.len() - i,
    {
        assert(ks@[i as int]@ == node@.kids()[i as int]);
        let ghost before = out@;
        let sub = free_vars(ks[i]);
        let mut k: usize = 0;
        while k < sub.len()
            invariant
                k <= sub.len(),
                forall|x: Name| #[trigger]
                    crate::ir::names(out@).contains(x) <==> crate::ir::names(before).contains(x)
                        || exists|j: int|
                        0 <= j < k && (#[trigger] sub@[j])@ == x && !node@.binds(i as int, x),
            decreases sub.len() - k,
        {
            let ghost mid = out@;
            if !is_bound(node, i, &sub[k]) {
                push_name(&mut out, &sub[k]);
            }
            assert forall|x: Name| #[trigger]
                crate::ir::names(out@).contains(x) <==> crate::ir::names(before).contains(x)
                    || exists|j: int|
                    0 <= j < k + 1 && (#[trigger] sub@[j])@ == x && !node@.binds(i as int, x) by {
                assert(crate::ir::names(mid).contains(x) <==> crate::ir::names(before).contains(x)
                    || exists|j: int|
                    0 <= j < k && (#[trigger] sub@[j])@ == x && !node@.binds(i as int, x));
                assert(crate::ir::names(out@).contains(x) <==> crate::ir::names(mid).contains(x)
                    || (sub@[k as int]@ == x && !node@.binds(i as int, x)));
            }
            k += 1;
        }
        assert forall|x: Name| #[trigger]
            crate::ir::names(out@).contains(x) <==> node@.uses_here(x) || exists|j: int|
                0 <= j < i + 1 && (#[trigger] node@.kids()[j]).free(x) && !node@.binds(j, x) by {
            let kid = node@.kids()[i as int];
            assert(crate::ir::names(sub@).contains(x) <==> kid.free(x));
            if kid.free(x) {
                let j = choose|j: int| 0 <= j < sub@.len() && crate::ir::names(sub@)[j] == x;
                assert(sub@[j]@ == x);
            }
            if exists|j: int|
                0 <= j < sub@.len() && (#[trigger] sub@[j])@ == x && !node@.binds(i as int, x) {
                let j = choose|j: int|
                    0 <= j < sub@.len() && (#[trigger] sub@[j])@ == x && !node@.binds(
                        i as int,
                        x,
                    );
                assert(crate::ir::names(sub@)[j] == x);
            }
        }
        i += 1;
    }
    assert forall|x: Name| #[trigger]
        crate::ir::names(out@).contains(x) <==> node@.free(x) by {
        assert(node@.free(x) == (node@.uses_here(x) || node@.free_in_kid(x)));
    }
    out
}

} // verus!
