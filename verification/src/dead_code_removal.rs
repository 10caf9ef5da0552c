//! Removal of bindings that nothing reads.

use crate::ir::{IRNode, Node};
use crate::traverse::{contains_name, map_nodes, used_vars, Rewrite};
use crate::types::{FunctionID, Name, TempId};
use vstd::prelude::*;

verus! {

/// Whether the expression is built from values, operators, tuples and field
/// reads alone.
pub open spec fn pure(n: Node) -> bool
    decreases n,
{
    match n {
        Node::Var(_) => true,
        Node::Const(_) => true,
        Node::BinOp { lhs, rhs, .. } => pure(*lhs) && pure(*rhs),
        Node::UnOp { operand, .. } => pure(*operand),
        Node::Tuple(elems) => all_pure(elems),
        Node::Field { base, .. } => pure(*base),
        _ => false,
    }
}

/// Whether each of the expressions is pure.
pub open spec fn all_pure(s: Seq<Node>) -> bool
    decreases s,
{
    forall|i: int| 0 <= i < s.len() ==> pure(#[trigger] s[i])
}

/// Whether the expression binds a pure value to names that are not used.
pub open spec fn dead_let(n: Node, used: spec_fn(Name) -> bool) -> bool {
    n matches Node::Let { pattern, value, .. } && pure(*value) && none_used(pattern, used)
}

/// Whether none of the names is used.
pub open spec fn none_used(pattern: Seq<Name>, used: spec_fn(Name) -> bool) -> bool {
    forall|i: int| 0 <= i < pattern.len() ==> !used(#[trigger] pattern[i])
}

/// The expression without its binding, where that is dead.
pub open spec fn without_dead_let(n: Node, used: spec_fn(Name) -> bool) -> Node {
    if dead_let(n, used) {
        *n->Let_body
    } else {
        n
    }
}

/// The name, or `_` where it is not used.
pub open spec fn blanked_name(x: Name, used: spec_fn(Name) -> bool) -> Name {
    if used(x) {
        x
    } else {
        "_"@
    }
}

/// The expression with the names blanked that a tuple pattern binds to no use.
pub open spec fn with_blanks(n: Node, used: spec_fn(Name) -> bool) -> Node {
    match n {
        Node::Let { pattern, value, body } if pattern.len() > 1 => Node::Let {
            pattern: Seq::new(pattern.len(), |i: int| blanked_name(pattern[i], used)),
            value,
            body,
        },
        _ => n,
    }
}

/// The set of names that a list holds.
pub open spec fn listed(used: Seq<TempId>) -> spec_fn(Name) -> bool {
    |x: Name| crate::ir::names(used).contains(x)
}

/// The step that drops a dead binding.
struct DropDeadLet<'a> {
    used: &'a Vec<TempId>,
}

impl<'a> Rewrite for DropDeadLet<'a> {
    closed spec fn accepts(&self, n: Node) -> bool {
        true
    }

    closed spec fn step(&self, n: Node) -> Node {
        without_dead_let(n, listed(self.used@))
    }

    fn apply(&self, n: IRNode) -> (r: IRNode) {
        if is_dead_let(&n, self.used) {
            if let IRNode::Let { body, .. } = n {
                return *body;
            }
        }
        n
    }
}

/// The step that blanks unused names.
struct BlankUnused<'a> {
    used: &'a Vec<TempId>,
}

impl<'a> Rewrite for BlankUnused<'a> {
    closed spec fn accepts(&self, n: Node) -> bool {
        true
    }

    closed spec fn step(&self, n: Node) -> Node {
        with_blanks(n, listed(self.used@))
    }

    fn apply(&self, n: IRNode) -> (r: IRNode) {
        match n {
            IRNode::Let { pattern, value, body } => {
                if pattern.len() > 1 {
                    let p = blank_names(&pattern, self.used);
                    IRNode::Let { pattern: p, value, body }
                } else {
                    IRNode::Let { pattern, value, body }
                }
            },
            other => other,
        }
    }
}

/// The names, with those that are not used blanked.
fn blank_names(pattern: &Vec<TempId>, used: &Vec<TempId>) -> (r: Vec<TempId>)
    ensures
        crate::ir::names(r@) == Seq::new(
            crate::ir::names(pattern@).len(),
            |i: int| blanked_name(crate::ir::names(pattern@)[i], listed(used@)),
        ),
{
    let mut out: Vec<TempId> = Vec::new();
    let mut i: usize = 0;
    while i < pattern.len()
        invariant
            i <= pattern.len(),
            out@.len() == i,
            forall|j: int| 0 <= j < i ==> (#[trigger] out@[j])@ == blanked_name(
                pattern@[j]@,
                listed(used@),
            ),
        decreases pattern.len() - i,
    {
        if contains_name(used, &pattern[i]) {
            out.push(pattern[i].clone());
        } else {
            out.push("_".to_owned());
        }
        i += 1;
    }
    assert(crate::ir::names(out@) =~= Seq::new(
        crate::ir::names(pattern@).len(),
        |i: int| blanked_name(crate::ir::names(pattern@)[i], listed(used@)),
    ));
    out
}

/// Drops the bindings of pure values that nothing in the tree reads, then blanks
/// the names of tuple patterns that nothing in the given tree reads.
pub fn remove_dead_code(ir: IRNode) -> (r: IRNode)
    ensures
        r@ == ir@.map(|n: Node| without_dead_let(n, |x: Name| ir@.uses(x))).map(
            |n: Node| with_blanks(n, |x: Name| ir@.uses(x)),
        ),
{
    let used = used_vars(&ir);
    assert(listed(used@) =~= (|x: Name| ir@.uses(x)));
    let live = remove_dead_lets(ir, &used);
    simplify_tuple_patterns(live, &used)
}

/// Drops the bindings of pure values to names that are not in the list.
fn remove_dead_lets(ir: IRNode, used: &Vec<TempId>) -> (r: IRNode)
    ensures
        r@ == ir@.map(|n: Node| without_dead_let(n, listed(used@))),
{
    let t = DropDeadLet { used };
    proof {
        ir@.lemma_map_accepts_all(|n: Node| t.step(n), |n: Node| t.accepts(n));
        assert((|n: Node| t.step(n)) =~= (|n: Node| without_dead_let(n, listed(used@))));
    }
    map_nodes(&ir, &t)
}

/// Blanks the names of tuple patterns that are not in the list.
pub fn simplify_tuple_patterns(ir: IRNode, used: &Vec<TempId>) -> (r: IRNode)
    ensures
        r@ == ir@.map(|n: Node| with_blanks(n, listed(used@))),
{
    let t = BlankUnused { used };
    proof {
        ir@.lemma_map_accepts_all(|n: Node| t.step(n), |n: Node| t.accepts(n));
        assert((|n: Node| t.step(n)) =~= (|n: Node| with_blanks(n, listed(used@))));
    }
    map_nodes(&ir, &t)
}

/// Whether the expression binds a pure value to names that are not in the list.
fn is_dead_let(ir: &IRNode, used: &Vec<TempId>) -> (r: bool)
    ensures
        r == dead_let(ir@, listed(used@)),
{
    if let IRNode::Let { pattern, value, .. } = ir {
        none_listed(pattern, used) && is_pure(value)
    } else {
        false
    }
}

/// Whether no name of the first list is in the second.
fn none_listed(pattern: &Vec<TempId>, used: &Vec<TempId>) -> (r: bool)
    ensures
        r == none_used(crate::ir::names(pattern@), listed(used@)),
{
    let mut i: usize = 0;
    while i < pattern.len()
        invariant
            i <= pattern.len(),
            forall|j: int| 0 <= j < i ==> !listed(used@)((#[trigger] pattern@[j])@),
        decreases pattern.len() - i,
    {
        if contains_name(used, &pattern[i]) {
            assert(listed(used@)(crate::ir::names(pattern@)[i as int]));
            return false;
        }
        i += 1;
    }
    true
}

/// Whether the expression is pure.
pub fn is_pure(ir: &IRNode) -> (r: bool)
    ensures
        r == pure(ir@),
    decreases ir,
{
    match ir {
        IRNode::Var(_) => true,
        IRNode::Const(_) => true,
        IRNode::BinOp { lhs, rhs, .. } => is_pure(lhs) && is_pure(rhs),
        IRNode::UnOp { operand, .. } => is_pure(operand),
        IRNode::Tuple(elems) => each_pure(elems),
        IRNode::Field { base, .. } => is_pure(base),
        _ => false,
    }
}

/// Whether each of the expressions is pure.
fn each_pure(elems: &Vec<IRNode>) -> (r: bool)
    ensures
        r == all_pure(IRNode::views(elems@)),
    decreases elems,
{
    let mut i: usize = 0;
    while i < elems.len()
        invariant
            i <= elems.len(),
            forall|j: int| 0 <= j < i ==> pure((#[trigger] elems@[j])@),
        decreases elems.len() - i,
    {
        if !is_pure(&elems[i]) {
            assert(!pure(IRNode::views(elems@)[i as int]));
            return false;
        }
        i += 1;
    }
    true
}

/// A binding goes only where its value is pure and none of its names is used; one
/// of a value with effects stays.
pub proof fn law_only_dead_bindings_go(n: Node, used: spec_fn(Name) -> bool)
    ensures
        without_dead_let(n, used) != n ==> (n matches Node::Let { pattern, value, body } && pure(
            *value,
        ) && none_used(pattern, used) && without_dead_let(n, used) == *body),
        (n matches Node::Let { value, .. } && !pure(*value)) ==> without_dead_let(n, used) == n,
{
}

/// The functions that the first `k` direct subexpressions call, in order.
pub open spec fn called_in(n: Node, k: nat) -> Seq<FunctionID>
    decreases n, 0nat, k,
{
    if k == 0 || k > n.kids().len() {
        Seq::empty()
    } else {
        proof {
            n.lemma_kids_decrease();
        }
        called_in(n, (k - 1) as nat) + called(n.kids()[k - 1])
    }
}

/// The functions that the expression calls, in order: those of its parts first.
pub open spec fn called(n: Node) -> Seq<FunctionID>
    decreases n, 1nat, 0nat,
{
    called_in(n, n.kids().len()) + match n {
        Node::Call { function, .. } => seq![function],
        _ => Seq::empty(),
    }
}

/// What is pure calls nothing.
proof fn lemma_pure_calls_nothing(n: Node)
    requires
        pure(n),
    ensures
        called(n) == Seq::<FunctionID>::empty(),
    decreases n,
{
    n.lemma_kids_decrease();
    assert forall|i: int| 0 <= i < n.kids().len() implies called(#[trigger] n.kids()[i])
        == Seq::<FunctionID>::empty() by {
        match n {
            Node::Tuple(elems) => {
                assert(n.kids() =~= elems);
                assert(all_pure(elems));
            },
            _ => {},
        }
        lemma_pure_calls_nothing(n.kids()[i]);
    }
    lemma_nothing_called(n, n.kids().len());
    assert(called(n) =~= Seq::empty());
}

/// Where no part calls anything, nothing is called in the parts.
proof fn lemma_nothing_called(n: Node, k: nat)
    requires
        k <= n.kids().len(),
        forall|i: int|
            0 <= i < n.kids().len() ==> called(#[trigger] n.kids()[i]) == Seq::<
                FunctionID,
            >::empty(),
    ensures
        called_in(n, k) == Seq::<FunctionID>::empty(),
    decreases k,
{
    if k > 0 {
        lemma_nothing_called(n, (k - 1) as nat);
        assert(called_in(n, k) =~= Seq::empty());
    }
}

/// Where the parts call the same, the same is called in the parts.
proof fn lemma_same_called(n: Node, m: Node, k: nat)
    requires
        n.kids().len() == m.kids().len(),
        k <= n.kids().len(),
        forall|i: int|
            0 <= i < n.kids().len() ==> called(#[trigger] n.kids()[i]) == called(m.kids()[i]),
    ensures
        called_in(n, k) == called_in(m, k),
    decreases k,
{
    if k > 0 {
        lemma_same_called(n, m, (k - 1) as nat);
        assert(called(n.kids()[k - 1]) == called(m.kids()[k - 1]));
    }
}

/// Rewriting with a step that keeps the calls keeps the calls.
proof fn lemma_map_keeps_calls(n: Node, f: spec_fn(Node) -> Node)
    requires
        forall|m: Node| called(#[trigger] f(m)) == called(m),
    ensures
        called(n.map(f)) == called(n),
    decreases n,
{
    n.lemma_kids_decrease();
    let ks = n.mapped_kids(f);
    n.lemma_with_kids(ks);
    let m = n.with_kids(ks);
    assert forall|i: int| 0 <= i < n.kids().len() implies called(#[trigger] n.kids()[i]) == called(
        m.kids()[i],
    ) by {
        lemma_map_keeps_calls(n.kids()[i], f);
    }
    lemma_same_called(n, m, n.kids().len());
    assert(called(f(m)) == called(m));
}

/// Every call stays, in its place among the others.
pub proof fn law_calls_stay_in_order(n: Node)
    ensures
        called(
            n.map(|m: Node| without_dead_let(m, |x: Name| n.uses(x))).map(
                |m: Node| with_blanks(m, |x: Name| n.uses(x)),
            ),
        ) == called(n),
{
    let used = |x: Name| n.uses(x);
    let f = |m: Node| without_dead_let(m, used);
    let g = |m: Node| with_blanks(m, used);
    assert forall|m: Node| called(#[trigger] f(m)) == called(m) by {
        if dead_let(m, used) {
            if let Node::Let { pattern, value, body } = m {
                lemma_pure_calls_nothing(*value);
                assert(m.kids() =~= seq![*value, *body]);
                assert(called_in(m, 0) =~= Seq::empty());
                assert(called_in(m, 1) =~= called_in(m, 0) + called(m.kids()[0]));
                assert(called_in(m, 2) =~= called_in(m, 1) + called(m.kids()[1]));
                assert(called(m) =~= called(*body));
            }
        }
    }
    assert forall|m: Node| called(#[trigger] g(m)) == called(m) by {
        if m is Let {
            assert(g(m).kids() =~= m.kids());
            lemma_same_called(m, g(m), m.kids().len());
        }
    }
    lemma_map_keeps_calls(n, f);
    lemma_map_keeps_calls(n.map(f), g);
}

/// What is free in an expression is used in it.
proof fn lemma_free_is_used(n: Node, x: Name)
    requires
        n.free(x),
    ensures
        n.uses(x),
    decreases n,
{
    n.lemma_kids_decrease();
    if !n.uses_here(x) {
        assert(n.free_in_kid(x));
        let i = choose|i: int|
            0 <= i < n.kids().len() && (#[trigger] n.kids()[i]).free(x) && !n.binds(i, x);
        lemma_free_is_used(n.kids()[i], x);
        assert(n.kids()[i].any(|m: Node| m.uses_here(x)));
    }
}

/// What is used in a part is used.
proof fn lemma_part_is_used(n: Node, i: int, x: Name)
    requires
        0 <= i < n.kids().len(),
        n.kids()[i].uses(x),
    ensures
        n.uses(x),
{
    assert(n.kids()[i].any(|m: Node| m.uses_here(x)));
}

/// New parts leave the names alone that are bound around them, and those used beside
/// them.
proof fn lemma_names_kept(n: Node, ks: Seq<Node>, i: int, x: Name)
    requires
        ks.len() == n.kids().len(),
    ensures
        n.with_kids(ks).binds(i, x) == n.binds(i, x),
        n.with_kids(ks).uses_here(x) == n.uses_here(x),
{
    if let Node::Match { cases, .. } = n {
        assert(n.kids().len() == 1 + cases.len());
    }
}

/// Dropping bindings adds no use of a variable.
proof fn lemma_drop_adds_no_use(n: Node, used: spec_fn(Name) -> bool, x: Name)
    requires
        n.map(|m: Node| without_dead_let(m, used)).uses(x),
    ensures
        n.uses(x),
    decreases n,
{
    let f = |m: Node| without_dead_let(m, used);
    let p = |m: Node| m.uses_here(x);
    n.lemma_kids_decrease();
    let ks = n.mapped_kids(f);
    n.lemma_with_kids(ks);
    let m = n.with_kids(ks);
    let r = f(m);
    assert(r.any(p));
    assert(m.any(p)) by {
        if r != m {
            if let Node::Let { body, .. } = m {
                assert(m.kids()[1] == *body);
            }
        }
    }
    if m.uses_here(x) {
        lemma_names_kept(n, ks, 0, x);
    } else {
        let i = choose|i: int| 0 <= i < m.kids().len() && (#[trigger] m.kids()[i]).any(p);
        assert(ks[i].uses(x));
        lemma_drop_adds_no_use(n.kids()[i], used, x);
        lemma_part_is_used(n, i, x);
    }
}

/// Rewriting with a step that adds no free variable that is used adds none.
proof fn lemma_map_adds_no_free(
    n: Node,
    f: spec_fn(Node) -> Node,
    used: spec_fn(Name) -> bool,
    x: Name,
)
    requires
        forall|y: Name| #[trigger] n.uses(y) ==> used(y),
        forall|m: Node, y: Name| used(y) && #[trigger] f(m).free(y) ==> m.free(y),
        forall|m: Node, y: Name| #[trigger] f(m).free(y) && !used(y) ==> m.free(y) || exists|i: int|
            0 <= i < m.kids().len() && (#[trigger] m.kids()[i]).free(y),
        n.map(f).free(x),
    ensures
        n.free(x),
    decreases n,
{
    n.lemma_kids_decrease();
    let ks = n.mapped_kids(f);
    n.lemma_with_kids(ks);
    let m = n.with_kids(ks);
    assert(f(m).free(x));
    if !m.free(x) {
        assert(!used(x));
        let i = choose|i: int| 0 <= i < m.kids().len() && (#[trigger] m.kids()[i]).free(x);
        lemma_kid_adds_no_free(n, f, used, i, x);
        lemma_free_is_used(n.kids()[i], x);
        lemma_part_is_used(n, i, x);
    } else if m.uses_here(x) {
        lemma_names_kept(n, ks, 0, x);
    } else {
        assert(m.free_in_kid(x));
        let i = choose|i: int|
            0 <= i < m.kids().len() && (#[trigger] m.kids()[i]).free(x) && !m.binds(i, x);
        lemma_names_kept(n, ks, i, x);
        lemma_kid_adds_no_free(n, f, used, i, x);
        assert(n.kids()[i].free(x) && !n.binds(i, x));
        assert(n.free_in_kid(x));
    }
}

/// Rewriting a part with such a step adds no free variable.
proof fn lemma_kid_adds_no_free(
    n: Node,
    f: spec_fn(Node) -> Node,
    used: spec_fn(Name) -> bool,
    i: int,
    x: Name,
)
    requires
        forall|y: Name| #[trigger] n.uses(y) ==> used(y),
        forall|m: Node, y: Name| used(y) && #[trigger] f(m).free(y) ==> m.free(y),
        forall|m: Node, y: Name| #[trigger] f(m).free(y) && !used(y) ==> m.free(y) || exists|k: int|
            0 <= k < m.kids().len() && (#[trigger] m.kids()[k]).free(y),
        0 <= i < n.kids().len(),
        n.kids()[i].map(f).free(x),
    ensures
        n.kids()[i].free(x),
    decreases n, 0nat,
{
    n.lemma_kids_decrease();
    assert forall|y: Name| #[trigger] n.kids()[i].uses(y) implies used(y) by {
        lemma_part_is_used(n, i, y);
        assert(n.uses(y));
    }
    lemma_map_adds_no_free(n.kids()[i], f, used, x);
}

/// No variable becomes free.
pub proof fn law_no_variable_becomes_free(n: Node, x: Name)
    requires
        n.map(|m: Node| without_dead_let(m, |y: Name| n.uses(y))).map(
            |m: Node| with_blanks(m, |y: Name| n.uses(y)),
        ).free(x),
    ensures
        n.free(x),
{
    let used = |y: Name| n.uses(y);
    let f = |m: Node| without_dead_let(m, used);
    let g = |m: Node| with_blanks(m, used);
    let live = n.map(f);
    assert forall|m: Node, y: Name| used(y) && #[trigger] f(m).free(y) implies m.free(y) by {
        if dead_let(m, used) {
            if let Node::Let { pattern, value, body } = m {
                assert(m.kids()[1] == *body);
                assert(!pattern.contains(y)) by {
                    if pattern.contains(y) {
                        let k = choose|k: int| 0 <= k < pattern.len() && pattern[k] == y;
                        assert(!used(pattern[k]));
                    }
                }
                assert(m.kids()[1].free(y) && !m.binds(1, y));
                assert(m.free_in_kid(y));
            }
        }
    }
    assert forall|m: Node, y: Name| #[trigger] f(m).free(y) && !used(y) implies m.free(y)
        || exists|k: int| 0 <= k < m.kids().len() && (#[trigger] m.kids()[k]).free(y) by {
        if dead_let(m, used) {
            if let Node::Let { body, .. } = m {
                assert(m.kids()[1] == *body);
            }
        }
    }
    assert forall|m: Node, y: Name| #[trigger] g(m).free(y) implies (used(y) ==> m.free(y)) && (
    m.free(y) || exists|k: int| 0 <= k < m.kids().len() && (#[trigger] m.kids()[k]).free(y)) by {
        if let Node::Let { pattern, value, body } = m {
            if pattern.len() > 1 {
                let r = g(m);
                assert(r.kids() =~= m.kids());
                assert(!r.uses_here(y));
                assert(r.free_in_kid(y));
                let i = choose|i: int|
                    0 <= i < r.kids().len() && (#[trigger] r.kids()[i]).free(y) && !r.binds(i, y);
                assert(m.kids()[i].free(y));
                if used(y) {
                    assert(!m.binds(i, y)) by {
                        if m.binds(i, y) {
                            let k = choose|k: int| 0 <= k < pattern.len() && pattern[k] == y;
                            assert(r->Let_pattern[k] == y);
                            assert(r->Let_pattern.contains(y));
                        }
                    }
                    assert(m.free_in_kid(y));
                }
            }
        }
    }
    assert forall|y: Name| #[trigger] live.uses(y) implies used(y) by {
        lemma_drop_adds_no_use(n, used, y);
    }
    lemma_map_adds_no_free(live, g, used, x);
    lemma_map_adds_no_free(n, f, used, x);
}

/// Blanking names that are not used leaves the parts that the used names take.
proof fn lemma_blanked_parts(
    env: crate::meaning::Env,
    xs: Seq<Name>,
    v: crate::meaning::Val,
    k: nat,
    used: spec_fn(Name) -> bool,
    x: Name,
)
    requires
        k <= xs.len(),
        used(x),
        x != "_"@,
    ensures
        crate::meaning::set_parts(
            env,
            Seq::new(xs.len(), |i: int| blanked_name(xs[i], used)),
            v,
            k,
        )(x) == crate::meaning::set_parts(env, xs, v, k)(x),
    decreases k,
{
    if k > 0 {
        lemma_blanked_parts(env, xs, v, (k - 1) as nat, used, x);
        let ys = Seq::new(xs.len(), |i: int| blanked_name(xs[i], used));
        assert(ys[k - 1] == blanked_name(xs[k - 1], used));
    }
}

/// A step that drops a dead binding, or blanks unused names, keeps the value of an
/// expression that uses none of them.
proof fn lemma_step_keeps_value(
    k: Node,
    used: spec_fn(Name) -> bool,
    env: crate::meaning::Env,
    m: crate::meaning::Model,
)
    requires
        forall|x: Name| #[trigger] k.uses(x) ==> used(x),
    ensures
        crate::meaning::eval(without_dead_let(k, used), env, m) == crate::meaning::eval(k, env, m),
        crate::meaning::eval(with_blanks(k, used), env, m) == crate::meaning::eval(k, env, m),
{
    if let Node::Let { pattern, value, body } = k {
        let v = crate::meaning::eval(*value, env, m);
        let inner = crate::meaning::bound(env, pattern, v);
        assert(k.kids()[1] == *body);
        assert forall|x: Name| #[trigger] body.free(x) implies used(x) by {
            crate::written_meaning::lemma_free_used(*body, x);
            let t = |n: Node| n.uses_here(x);
            assert(k.kids()[1].any(t));
            assert(k.any_kid(t));
            assert(k.uses(x));
        }
        if dead_let(k, used) {
            assert(crate::meaning::agree(*body, inner, env)) by {
                assert forall|x: Name| #[trigger] body.free(x) && x != "_"@ implies inner(x)
                    == env(x) by {
                    if pattern.contains(x) {
                        let i = choose|i: int| 0 <= i < pattern.len() && pattern[i] == x;
                        assert(!used(pattern[i]));
                    }
                    crate::meaning::lemma_bound(env, env, pattern, v, x);
                }
            }
            crate::meaning::lemma_agree(*body, inner, env, m);
        }
        if pattern.len() > 1 {
            let blank = Seq::new(pattern.len(), |i: int| blanked_name(pattern[i], used));
            let other = crate::meaning::bound(env, blank, v);
            assert(crate::meaning::agree(*body, other, inner)) by {
                assert forall|x: Name| #[trigger] body.free(x) && x != "_"@ implies other(x)
                    == inner(x) by {
                    lemma_blanked_parts(env, pattern, v, pattern.len(), used, x);
                }
            }
            crate::meaning::lemma_agree(*body, other, inner, m);
        }
    }
}

/// An expression whose parts use only given names, and that does itself, uses only these.
proof fn lemma_uses_only(n: Node, ks: Seq<Node>, used: spec_fn(Name) -> bool, x: Name)
    requires
        ks.len() == n.kids().len(),
        forall|y: Name| #[trigger] n.uses(y) ==> used(y),
        forall|i: int, y: Name| 0 <= i < ks.len() && #[trigger] ks[i].uses(y) ==> used(y),
        n.with_kids(ks).uses(x),
    ensures
        used(x),
{
    let k = n.with_kids(ks);
    let t = |y: Node| y.uses_here(x);
    n.lemma_with_kids(ks);
    if t(k) {
        assert(t(n));
        assert(n.uses(x));
    } else {
        let i = choose|i: int| 0 <= i < k.kids().len() && (#[trigger] k.kids()[i]).any(t);
        assert(ks[i].uses(x));
    }
}

/// One step: unused names blanked, or a dead binding dropped.
pub open spec fn trimmed(k: Node, used: spec_fn(Name) -> bool, blanks: bool) -> Node {
    if blanks {
        with_blanks(k, used)
    } else {
        without_dead_let(k, used)
    }
}

/// Dropping dead bindings, or blanking unused names, throughout keeps the value, and adds no
/// use of a name.
proof fn lemma_all_keep_value(
    n: Node,
    used: spec_fn(Name) -> bool,
    blanks: bool,
    env: crate::meaning::Env,
    m: crate::meaning::Model,
)
    requires
        forall|x: Name| #[trigger] n.uses(x) ==> used(x),
    ensures
        ({
            let r = n.map(|k: Node| trimmed(k, used, blanks));
            &&& crate::meaning::eval(r, env, m) == crate::meaning::eval(n, env, m)
            &&& forall|x: Name| #[trigger] r.uses(x) ==> used(x)
        }),
    decreases n,
{
    n.lemma_kids_decrease();
    let f = |k: Node| trimmed(k, used, blanks);
    let ks = n.mapped_kids(f);
    let k = n.with_kids(ks);
    assert forall|i: int, y: Name| 0 <= i < ks.len() && #[trigger] ks[i].uses(y) implies used(y) by {
        let kid = n.kids()[i];
        assert forall|x: Name| #[trigger] kid.uses(x) implies used(x) by {
            let t = |z: Node| z.uses_here(x);
            assert(n.kids()[i].any(t));
            assert(n.any_kid(t));
            assert(n.uses(x));
        }
        lemma_all_keep_value(kid, used, blanks, env, m);
        assert(ks[i] == kid.map(f));
    }
    assert forall|x: Name| #[trigger] k.uses(x) implies used(x) by {
        lemma_uses_only(n, ks, used, x);
    }
    if n is Var {
        assert(k == n);
    } else {
        assert(crate::written_meaning::same_parts(n, ks, env, env, m)) by {
            assert forall|i: int, v: crate::meaning::Val, vs: Seq<crate::meaning::Val>|
                0 <= i < ks.len() implies crate::meaning::eval(
                ks[i],
                #[trigger] crate::written_meaning::around(n, i, env, v, vs),
                m,
            ) == crate::meaning::eval(
                n.kids()[i],
                crate::written_meaning::around(n, i, env, v, vs),
                m,
            ) by {
                let kid = n.kids()[i];
                assert forall|x: Name| #[trigger] kid.uses(x) implies used(x) by {
                    let t = |z: Node| z.uses_here(x);
                    assert(n.kids()[i].any(t));
                    assert(n.any_kid(t));
                    assert(n.uses(x));
                }
                let inner = crate::written_meaning::around(n, i, env, v, vs);
                lemma_all_keep_value(kid, used, blanks, inner, m);
                assert(ks[i] == kid.map(f));
            }
        }
        crate::written_meaning::lemma_rebuilt(n, ks, env, env, m);
    }
    lemma_step_keeps_value(k, used, env, m);
    let r = f(k);
    assert(n.map(f) == r);
    assert forall|x: Name| #[trigger] r.uses(x) implies used(x) by {
        let t = |z: Node| z.uses_here(x);
        if r != k {
            if let Node::Let { pattern, value, body } = k {
                if blanks {
                    assert(r.kids() =~= k.kids());
                    let i = choose|i: int| 0 <= i < r.kids().len() && (#[trigger] r.kids()[i]).any(t);
                    assert(k.kids()[i].any(t));
                    assert(k.any_kid(t));
                } else {
                    assert(k.kids()[1] == *body);
                    assert(k.kids()[1].any(t));
                    assert(k.any_kid(t));
                }
                assert(k.uses(x));
            }
        }
    }
}

/// What is left has the value of what there was.
pub proof fn law_removing_dead_code_keeps_the_value(
    n: Node,
    env: crate::meaning::Env,
    m: crate::meaning::Model,
)
    ensures
        crate::meaning::eval(
            n.map(|k: Node| without_dead_let(k, |x: Name| n.uses(x))).map(
                |k: Node| with_blanks(k, |x: Name| n.uses(x)),
            ),
            env,
            m,
        ) == crate::meaning::eval(n, env, m),
{
    let used = |x: Name| n.uses(x);
    let f = |k: Node| without_dead_let(k, used);
    let g = |k: Node| with_blanks(k, used);
    assert(f =~= (|k: Node| trimmed(k, used, false)));
    assert(g =~= (|k: Node| trimmed(k, used, true)));
    lemma_all_keep_value(n, used, false, env, m);
    lemma_all_keep_value(n.map(f), used, true, env, m);
}

} // verus!
