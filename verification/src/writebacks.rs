//! Writes and write-backs: binding what a write returns, carrying a write-back on
//! to the struct that the written value was taken from, and branches that return a
//! changed struct where a reference to it is due.

use crate::ir::{clone_names, IRNode, Node, WriteBackEdge};
use crate::parts::{is_branching, is_control, map_within, Leaves, Within};
use crate::program::Prog;
use crate::scope::{Vars, VariableRegistry};
use crate::shadowing::{
    add_snap, base_var, copy_snaps, extract_field_snapshot, extract_self_update, find_snap,
    keep_fresh, rebuild_let_chain, rebuild_self_update, Gone, SelfUpdate, Snap, Snapshot, Stale,
    Update,
};
use crate::traverse::{free_vars, map_nodes, Rewrite};
use crate::types::{Name, TempId, Ty, Type};
use vstd::prelude::*;

verus! {

/// A write to a variable whose result nothing takes, bound to that variable.
pub open spec fn binding_write(n: Node) -> Node {
    match n {
        Node::Let { pattern, value, body } => match *value {
            Node::WriteRef { reference, .. } => match *reference {
                Node::Var(x) => if pattern.len() == 0 {
                    Node::Let { pattern: seq![x], value, body }
                } else {
                    n
                },
                _ => n,
            },
            _ => n,
        },
        _ => n,
    }
}

/// The variable that the expression writes to.
fn written_var(value: &IRNode) -> (r: Option<TempId>)
    ensures
        match value@ {
            Node::WriteRef { reference, .. } => match *reference {
                Node::Var(x) => r is Some && r->0@ == x,
                _ => r is None,
            },
            _ => r is None,
        },
{
    proof {
        reveal_with_fuel(IRNode::view, 2);
    }
    match value {
        IRNode::WriteRef { reference, .. } => match &**reference {
            IRNode::Var(x) => Some(x.clone()),
            _ => None,
        },
        _ => None,
    }
}

/// The step that binds a write.
struct BindWrite;

impl Rewrite for BindWrite {
    closed spec fn accepts(&self, n: Node) -> bool {
        true
    }

    closed spec fn step(&self, n: Node) -> Node {
        binding_write(n)
    }

    fn apply(&self, n: IRNode) -> (r: IRNode) {
        match n {
            IRNode::Let { pattern, value, body } => {
                assert(crate::ir::names(pattern@).len() == pattern@.len());
                if pattern.len() == 0 {
                    match written_var(&value) {
                        Some(x) => {
                            let mut own: Vec<TempId> = Vec::new();
                            own.push(x);
                            assert(crate::ir::names(own@) =~= seq![x@]);
                            return IRNode::Let { pattern: own, value, body };
                        },
                        None => {},
                    }
                }
                IRNode::Let { pattern, value, body }
            },
            other => other,
        }
    }
}

/// Binds the writes to variables whose result nothing takes to these variables.
pub fn fix_writeref_empty_patterns(node: IRNode) -> (r: IRNode)
    ensures
        r@ == node@.map(|n: Node| binding_write(n)),
{
    let t = BindWrite;
    proof {
        node@.lemma_map_accepts_all(|n: Node| t.step(n), |n: Node| t.accepts(n));
        assert((|n: Node| t.step(n)) =~= (|n: Node| binding_write(n)));
    }
    map_nodes(&node, &t)
}

/// A chain of bindings that is being walked: the bindings so far, and the snapshots
/// that variables hold.
#[verifier::ext_equal]
pub struct Walked {
    pub out: Seq<(Seq<Name>, Node)>,
    pub snaps: Seq<Snap>,
}

/// The executable [`Walked`].
pub struct WalkState {
    pub out: Vec<(Vec<TempId>, IRNode)>,
    pub snaps: Vec<Snapshot>,
}

impl WalkState {
    /// What the state holds.
    pub open spec fn view(&self) -> Walked {
        Walked {
            out: crate::shadowing::binding_views(self.out@),
            snaps: Snapshot::views(self.snaps@),
        }
    }
}

/// Whether the binding sets the field that the snapshot was taken of to the
/// variable that holds the snapshot.
pub open spec fn puts_back(e: Snap, b: (Seq<Name>, Node)) -> bool {
    b.0 == seq![e.base] && match crate::shadowing::self_update(b.1) {
        Some(u) => u.base == e.base && u.struct_id == e.struct_id && u.field_index
            == e.field_index && u.value == Node::Var(e.name),
        None => false,
    }
}

/// Whether the binding sets the field that the snapshot was taken of to the
/// variable that holds the snapshot.
fn does_put_back(e: &Snapshot, pattern: &Vec<TempId>, v: &IRNode) -> (r: bool)
    ensures
        r == puts_back(e@, (crate::ir::names(pattern@), v@)),
{
    let ghost ps = crate::ir::names(pattern@);
    assert(ps.len() == pattern@.len());
    if pattern.len() != 1 {
        assert(ps.len() != seq![e@.base].len());
        return false;
    }
    assert(ps[0] == pattern@[0]@);
    if pattern[0] != e.base {
        assert(ps[0] != seq![e@.base][0]);
        return false;
    }
    assert(ps =~= seq![e@.base]);
    match extract_self_update(v) {
        Some(u) => {
            let own = match &u.value {
                IRNode::Var(x) => *x == e.name,
                _ => false,
            };
            assert(own == (u.value@ == Node::Var(e@.name)));
            u.base == e.base && u.struct_id == e.struct_id && u.field_index == e.field_index && own
        },
        None => false,
    }
}

/// Whether one of the last three bindings puts the snapshot back.
pub open spec fn lately_put_back(e: Snap, out: Seq<(Seq<Name>, Node)>) -> bool {
    exists|i: int|
        0 <= i < out.len() && i >= out.len() - 3 && puts_back(e, #[trigger] out[i])
}

/// The next binding of a chain.
pub open spec fn next_binding(n: Node) -> Option<(Seq<Name>, Node)> {
    match n {
        Node::Let { pattern, value, .. } => Some((pattern, *value)),
        _ => None,
    }
}

/// The binding that carries a write-back on: the field that the snapshot was taken
/// of is set to the variable that holds the snapshot.
pub open spec fn carrying(e: Snap) -> (Seq<Name>, Node) {
    (
        seq![e.base],
        crate::shadowing::update_node(
            Update {
                base: e.base,
                struct_id: e.struct_id,
                field_index: e.field_index,
                value: Node::Var(e.name),
                through_ref: e.through_ref,
            },
        ),
    )
}

/// The snapshot that a binding writes back to.
pub open spec fn written_back(c: Walked, pattern: Seq<Name>, v: Node) -> Option<Snap> {
    match v {
        Node::WriteBack { parent, edge: WriteBackEdge::Direct, .. } => if pattern.len() == 0 {
            crate::shadowing::snap_of(c.snaps, parent)
        } else {
            None
        },
        _ => None,
    }
}

/// The snapshots after the variables were bound anew.
pub open spec fn snaps_rebound(s: Seq<Snap>, xs: Seq<Name>) -> Seq<Snap>
    decreases xs.len(),
{
    if xs.len() == 0 {
        s
    } else {
        crate::shadowing::fresh(snaps_rebound(s, xs.drop_last()), Gone::About(xs.last()))
    }
}

/// The chain with one more binding, before the given next one.
pub open spec fn walked_on(
    c: Walked,
    pattern: Seq<Name>,
    v: Node,
    next: Option<(Seq<Name>, Node)>,
) -> Walked {
    let out = c.out.push((pattern, v));
    match written_back(c, pattern, v) {
        Some(e) => Walked {
            out: if lately_put_back(e, out) || (next is Some && puts_back(e, next->0)) {
                out
            } else {
                out.push(carrying(e))
            },
            snaps: crate::shadowing::fresh(c.snaps, Gone::OfBut(e.base, e.name)),
        },
        None => {
            let snaps = snaps_rebound(c.snaps, pattern);
            Walked {
                out,
                snaps: if pattern.len() == 1 {
                    match crate::shadowing::taken_snap(pattern[0], v) {
                        Some(e) => crate::shadowing::with_snap(snaps, e),
                        None => snaps,
                    }
                } else {
                    snaps
                },
            }
        },
    }
}

impl WalkState {
    /// Whether one of the last three bindings puts the snapshot back.
    fn was_put_back(&self, e: &Snapshot) -> (r: bool)
        ensures
            r == lately_put_back(e@, self@.out),
    {
        let n = self.out.len();
        assert(self@.out.len() == n);
        let from: usize = if n >= 3 {
            n - 3
        } else {
            0
        };
        let mut i: usize = from;
        while i < n
            invariant
                from <= i <= n,
                n == self.out@.len(),
                self@.out.len() == n,
                from == if n >= 3 {
                    n - 3
                } else {
                    0
                },
                forall|j: int| from <= j < i ==> !puts_back(e@, #[trigger] self@.out[j]),
            decreases n - i,
        {
            assert(self@.out[i as int] == (
                crate::ir::names(self.out@[i as int].0@),
                self.out@[i as int].1@,
            ));
            if does_put_back(e, &self.out[i].0, &self.out[i].1) {
                return true;
            }
            i += 1;
        }
        false
    }

    /// The snapshot that a binding writes back to.
    fn find_written_back(&self, pattern: &Vec<TempId>, v: &IRNode) -> (r: Option<Snapshot>)
        ensures
            crate::shadowing::optional_snap(r) == written_back(
                self@,
                crate::ir::names(pattern@),
                v@,
            ),
    {
        assert(crate::ir::names(pattern@).len() == pattern@.len());
        if pattern.len() != 0 {
            return None;
        }
        match v {
            IRNode::WriteBack { parent, edge: WriteBackEdge::Direct, .. } => find_snap(
                &self.snaps,
                parent,
            ),
            _ => None,
        }
    }

    /// Drops the snapshots that the binding of some variables makes stale.
    fn rebind(&mut self, xs: &Vec<TempId>)
        ensures
            final(self)@ == (Walked {
                out: old(self)@.out,
                snaps: snaps_rebound(old(self)@.snaps, crate::ir::names(xs@)),
            }),
    {
        let ghost start = self@;
        let ghost all = crate::ir::names(xs@);
        let mut i: usize = 0;
        assert(all.subrange(0, 0) =~= Seq::empty());
        while i < xs.len()
            invariant
                i <= xs.len(),
                all == crate::ir::names(xs@),
                self@.out == start.out,
                self@.snaps == snaps_rebound(start.snaps, all.subrange(0, i as int)),
            decreases xs.len() - i,
        {
            let ghost next = all.subrange(0, i + 1);
            assert(next.drop_last() =~= all.subrange(0, i as int));
            assert(next.last() == xs@[i as int]@);
            self.snaps = keep_fresh(&self.snaps, Stale::About(xs[i].clone()));
            i += 1;
        }
        assert(all.subrange(0, i as int) =~= all);
    }

    /// Adds a binding, before the given rest of the chain.
    fn walk_on(&mut self, pattern: Vec<TempId>, v: IRNode, rest: &IRNode)
        ensures
            final(self)@ == walked_on(
                old(self)@,
                crate::ir::names(pattern@),
                v@,
                next_binding(rest@),
            ),
    {
        let ghost c = self@;
        let ghost ps = crate::ir::names(pattern@);
        assert(ps.len() == pattern@.len());
        match self.find_written_back(&pattern, &v) {
            Some(e) => {
                self.out.push((pattern, v));
                assert(self@.out =~= c.out.push((ps, v@)));
                let behind = self.was_put_back(&e);
                let ahead = match rest {
                    IRNode::Let { pattern: p, value: w, .. } => does_put_back(&e, p, w),
                    _ => false,
                };
                let stale = Stale::OfBut(e.base.clone(), e.name.clone());
                if !behind && !ahead {
                    let ghost before = self@.out;
                    let mut own: Vec<TempId> = Vec::new();
                    own.push(e.base.clone());
                    assert(crate::ir::names(own@) =~= seq![e@.base]);
                    let u = SelfUpdate {
                        base: e.base,
                        struct_id: e.struct_id,
                        field_index: e.field_index,
                        value: IRNode::Var(e.name),
                        through_ref: e.through_ref,
                    };
                    let update = rebuild_self_update(u);
                    self.out.push((own, update));
                    assert(self@.out =~= before.push(carrying(e@)));
                }
                self.snaps = keep_fresh(&self.snaps, stale);
            },
            None => {
                self.rebind(&pattern);
                if pattern.len() == 1 {
                    assert(ps[0] == pattern@[0]@);
                    match extract_field_snapshot(&pattern[0], &v) {
                        Some(e) => {
                            self.snaps = add_snap(&self.snaps, e);
                        },
                        None => {},
                    }
                }
                self.out.push((pattern, v));
                assert(self@.out =~= c.out.push((ps, v@)));
            },
        }
    }
}

/// The expression with its write-backs carried on, where variables around it hold
/// the given snapshots. Chains and branches that stand inside other expressions are
/// walked as deep as given.
pub open spec fn carried(n: Node, snaps: Seq<Snap>, depth: nat) -> Node
    decreases 2 * depth, n, 3nat,
{
    if n is Let {
        carried_chain(n, Walked { out: Seq::empty(), snaps }, depth)
    } else {
        carried_other(n, snaps, depth)
    }
}

/// A chain of bindings with its write-backs carried on, behind what was walked of
/// it.
pub open spec fn carried_chain(n: Node, c: Walked, depth: nat) -> Node
    decreases 2 * depth, n, 2nat,
{
    match n {
        Node::Let { pattern, value, body } => carried_chain(
            *body,
            walked_on(c, pattern, carried(*value, c.snaps, depth), next_binding(*body)),
            depth,
        ),
        _ => crate::shadowing::chained(c.out, carried_other(n, c.snaps, depth)),
    }
}

/// An expression that is no chain, with its write-backs carried on.
pub open spec fn carried_other(n: Node, snaps: Seq<Snap>, depth: nat) -> Node
    decreases 2 * depth, n, 1nat,
{
    if crate::parts::branching(n) {
        n.with_kids(carried_kids(n, snaps, depth))
    } else if depth == 0 {
        n
    } else {
        n.map(carrying_inside(snaps, (depth - 1) as nat))
    }
}

/// The direct subexpressions with their write-backs carried on.
pub open spec fn carried_kids(n: Node, snaps: Seq<Snap>, depth: nat) -> Seq<Node>
    decreases 2 * depth, n, 0nat,
{
    proof {
        n.lemma_kids_decrease();
    }
    Seq::new(
        n.kids().len(),
        |i: int|
            if 0 <= i < n.kids().len() {
                carried(n.kids()[i], snaps, depth)
            } else {
                arbitrary()
            },
    )
}

/// The step for chains and branches inside other expressions.
pub open spec fn carrying_inside(snaps: Seq<Snap>, depth: nat) -> spec_fn(Node) -> Node
    decreases 2 * depth + 1, Node::OptionNone, 0nat,
{
    |m: Node|
        if crate::parts::controls(m) {
            carried(m, snaps, depth)
        } else {
            m
        }
}

/// Carries the write-backs of an expression on.
fn propagate_walk(node: &IRNode, snaps: &Vec<Snapshot>, depth: u64) -> (r: IRNode)
    ensures
        r@ == carried(node@, Snapshot::views(snaps@), depth as nat),
    decreases 2 * depth, node@, 3nat,
{
    match node {
        IRNode::Let { .. } => {
            let c = WalkState { out: Vec::new(), snaps: copy_snaps(snaps) };
            assert(c@.out =~= Seq::empty());
            propagate_chain(node, c, depth)
        },
        _ => propagate_other(node, snaps, depth),
    }
}

/// Carries the write-backs of a chain of bindings on, behind what was walked of it.
fn propagate_chain(node: &IRNode, chain: WalkState, depth: u64) -> (r: IRNode)
    ensures
        r@ == carried_chain(node@, chain@, depth as nat),
    decreases 2 * depth, node@, 2nat,
{
    match node {
        IRNode::Let { pattern, value, body } => {
            let mut c = chain;
            let v = propagate_walk(value, &c.snaps, depth);
            c.walk_on(clone_names(pattern), v, body);
            propagate_chain(body, c, depth)
        },
        _ => {
            let tail = propagate_other(node, &chain.snaps, depth);
            rebuild_let_chain(chain.out, tail)
        },
    }
}

/// Carries the write-backs of an expression that is no chain on.
fn propagate_other(node: &IRNode, snaps: &Vec<Snapshot>, depth: u64) -> (r: IRNode)
    ensures
        r@ == carried_other(node@, Snapshot::views(snaps@), depth as nat),
    decreases 2 * depth, node@, 1nat,
{
    if !is_branching(node) {
        if depth == 0 {
            return node.clone();
        }
        return propagate_inside(node, snaps, depth - 1);
    }
    let ghost ss = Snapshot::views(snaps@);
    let ks = node.children();
    let mut out: Vec<IRNode> = Vec::new();
    let mut i: usize = 0;
    proof {
        node@.lemma_kids_decrease();
    }
    while i < ks.len()
        invariant
            i <= ks.len(),
            out@.len() == i,
            ss == Snapshot::views(snaps@),
            ks@.len() == node@.kids().len(),
            forall|j: int| 0 <= j < ks@.len() ==> (#[trigger] ks@[j])@ == node@.kids()[j],
            forall|j: int|
                0 <= j < i ==> (#[trigger] out@[j])@ == carried(
                    node@.kids()[j],
                    ss,
                    depth as nat,
                ),
            forall|j: int| 0 <= j < node@.kids().len() ==> decreases_to!(
                node@ => #[trigger] node@.kids()[j]
            ),
        decreases ks.len() - i,
    {
        assert(ks@[i as int]@ == node@.kids()[i as int]);
        out.push(propagate_walk(ks[i], snaps, depth));
        i += 1;
    }
    assert(IRNode::views(out@) =~= carried_kids(node@, ss, depth as nat));
    node.with_children(out)
}

/// Carries the write-backs in chains and branches inside an expression on.
fn propagate_inside(node: &IRNode, snaps: &Vec<Snapshot>, depth: u64) -> (r: IRNode)
    ensures
        r@ == node@.map(carrying_inside(Snapshot::views(snaps@), depth as nat)),
    decreases 2 * depth + 1, node@, 0nat,
{
    let ghost f = carrying_inside(Snapshot::views(snaps@), depth as nat);
    let ks = node.children();
    let mut out: Vec<IRNode> = Vec::new();
    let mut i: usize = 0;
    proof {
        node@.lemma_kids_decrease();
    }
    while i < ks.len()
        invariant
            i <= ks.len(),
            out@.len() == i,
            f == carrying_inside(Snapshot::views(snaps@), depth as nat),
            ks@.len() == node@.kids().len(),
            forall|j: int| 0 <= j < ks@.len() ==> (#[trigger] ks@[j])@ == node@.kids()[j],
            forall|j: int| 0 <= j < i ==> (#[trigger] out@[j])@ == node@.kids()[j].map(f),
            forall|j: int| 0 <= j < node@.kids().len() ==> decreases_to!(
                node@ => #[trigger] node@.kids()[j]
            ),
        decreases ks.len() - i,
    {
        assert(ks@[i as int]@ == node@.kids()[i as int]);
        out.push(propagate_inside(ks[i], snaps, depth));
        i += 1;
    }
    assert(IRNode::views(out@) =~= node@.mapped_kids(f));
    let rebuilt = node.with_children(out);
    if is_control(&rebuilt) {
        propagate_walk(&rebuilt, snaps, depth)
    } else {
        rebuilt
    }
}

/// Carries the write-backs to snapshots of fields on to the structs that the
/// fields belong to.
pub fn propagate_field_snapshot_writebacks(node: IRNode) -> (r: IRNode)
    ensures
        r@ == carried(node@, Seq::empty(), crate::coalesce::NESTING as nat),
{
    let snaps: Vec<Snapshot> = Vec::new();
    assert(Snapshot::views(snaps@) =~= Seq::empty());
    propagate_walk(&node, &snaps, crate::coalesce::NESTING)
}

/// A write-back to a snapshot is followed by a binding that sets the field of the
/// struct, unless one stands just before or behind it.
pub proof fn law_write_back_is_carried_on(
    c: Walked,
    pattern: Seq<Name>,
    v: Node,
    next: Option<(Seq<Name>, Node)>,
)
    requires
        written_back(c, pattern, v) is Some,
    ensures
        ({
            let e = written_back(c, pattern, v)->0;
            let after = walked_on(c, pattern, v, next);
            ||| puts_back(e, after.out.last())
            ||| lately_put_back(e, c.out.push((pattern, v)))
            ||| (next is Some && puts_back(e, next->0))
        }),
{
    let e = written_back(c, pattern, v)->0;
    crate::shadowing::law_update_round_trip(
        Update {
            base: e.base,
            struct_id: e.struct_id,
            field_index: e.field_index,
            value: Node::Var(e.name),
            through_ref: e.through_ref,
        },
    );
}

/// The leaf of a branch, written through the reference where it is the struct
/// behind it with a field changed.
pub open spec fn written_leaf(x: Name, n: Node) -> Node {
    match n {
        Node::UpdateField { base, .. } => if crate::shadowing::var_under(*base) == Some(x) {
            Node::WriteRef { reference: Box::new(Node::Var(x)), value: Box::new(n) }
        } else {
            n
        },
        _ => n,
    }
}

/// The branch whose leaves are written through the reference.
pub open spec fn leaves_written(x: Name, n: Node) -> Node {
    n.map_in(
        |m: Node, i: int| crate::parts::at_leaf(m, i),
        |m: Node|
            if crate::parts::controls(m) {
                m
            } else {
                written_leaf(x, m)
            },
    )
}

/// The step that writes a leaf through the reference.
struct WriteLeaf<'a> {
    x: &'a TempId,
}

impl<'a> Rewrite for WriteLeaf<'a> {
    closed spec fn accepts(&self, n: Node) -> bool {
        true
    }

    closed spec fn step(&self, n: Node) -> Node {
        if crate::parts::controls(n) {
            n
        } else {
            written_leaf(self.x@, n)
        }
    }

    fn apply(&self, n: IRNode) -> (r: IRNode) {
        if is_control(&n) {
            return n;
        }
        let hit = match &n {
            IRNode::UpdateField { base, .. } => match base_var(base) {
                Some(b) => b == *self.x,
                None => false,
            },
            _ => false,
        };
        proof {
            reveal_with_fuel(IRNode::view, 2);
        }
        if hit {
            IRNode::WriteRef {
                reference: Box::new(IRNode::Var(self.x.clone())),
                value: Box::new(n),
            }
        } else {
            n
        }
    }
}

/// Writes the leaves of a branch through the reference.
fn wrap_branch_terminals(node: &IRNode, x: &TempId) -> (r: IRNode)
    ensures
        r@ == leaves_written(x@, node@),
{
    let w = Leaves;
    let t = WriteLeaf { x };
    assert((|m: Node, i: int| Within::enters(&w, m, i)) =~= (|m: Node, i: int|
        crate::parts::at_leaf(m, i)));
    assert((|n: Node| t.step(n)) =~= (|m: Node|
        if crate::parts::controls(m) {
            m
        } else {
            written_leaf(x@, m)
        }));
    map_within(node, &w, &t)
}

/// Whether the variable is a mutable reference.
pub open spec fn is_reference(vars: Vars, x: Name) -> bool {
    crate::scope::var_type(vars, x) matches Some(Ty::MutableReference(_, _))
}

/// Whether each free variable of the expression is in scope.
pub open spec fn closed_in(n: Node, vars: Vars) -> bool {
    forall|x: Name| #[trigger] n.free(x) ==> crate::scope::var_type(vars, x) is Some
}

/// The expression whose branches that a reference is bound to are written through
/// it, and the scope after it.
pub open spec fn wrapped(n: Node, vars: Vars, p: Prog) -> (Node, Vars)
    decreases n, n.kids().len() + 1,
{
    match n {
        Node::Let { pattern, value, body } => {
            let (v, vars1) = wrapped(*value, vars, p);
            let v1 = if pattern.len() == 1 && is_reference(vars1, pattern[0])
                && crate::parts::branching(v) {
                leaves_written(pattern[0], v)
            } else {
                v
            };
            let vars2 = if closed_in(v1, vars1) {
                crate::scope::bound(vars1, pattern, crate::scope::type_of(v1, vars1, p))
            } else {
                vars1
            };
            let (b, vars3) = wrapped(*body, vars2, p);
            (Node::Let { pattern, value: Box::new(v1), body: Box::new(b) }, vars3)
        },
        _ => {
            let (ks, vars1) = wrapped_kids(n, vars, p, n.kids().len());
            (n.with_kids(ks), vars1)
        },
    }
}

/// The first `k` direct subexpressions, wrapped one after the other, and the scope
/// after them.
pub open spec fn wrapped_kids(n: Node, vars: Vars, p: Prog, k: nat) -> (Seq<Node>, Vars)
    decreases n, k,
{
    if k == 0 || k > n.kids().len() {
        (Seq::empty(), vars)
    } else {
        let (ks, vars1) = wrapped_kids(n, vars, p, (k - 1) as nat);
        proof {
            n.lemma_kids_decrease();
            assert(decreases_to!(n => n.kids()[k - 1]));
        }
        let (m, vars2) = wrapped(n.kids()[k - 1], vars1, p);
        (ks.push(m), vars2)
    }
}

/// Whether each free variable of the expression is in scope.
fn all_in_scope(node: &IRNode, reg: &VariableRegistry) -> (r: bool)
    ensures
        r == closed_in(node@, reg@),
{
    let frees = free_vars(node);
    let ghost fs = crate::ir::names(frees@);
    let mut i: usize = 0;
    while i < frees.len()
        invariant
            i <= frees.len(),
            fs == crate::ir::names(frees@),
            forall|x: Name| #[trigger] fs.contains(x) <==> node@.free(x),
            forall|j: int|
                0 <= j < i ==> crate::scope::var_type(reg@, #[trigger] fs[j]) is Some,
        decreases frees.len() - i,
    {
        assert(fs[i as int] == frees@[i as int]@);
        assert(fs.contains(fs[i as int]));
        if !reg.contains(&frees[i]) {
            assert(node@.free(fs[i as int]));
            return false;
        }
        i += 1;
    }
    assert forall|x: Name| #[trigger] node@.free(x) implies crate::scope::var_type(
        reg@,
        x,
    ) is Some by {
        assert(fs.contains(x));
        let j = choose|j: int| 0 <= j < fs.len() && fs[j] == x;
        assert(crate::scope::var_type(reg@, fs[j]) is Some);
    }
    true
}

/// Writes the branches that a reference is bound to through it.
pub fn wrap_mutable_if_branch_terminals(node: IRNode, reg: &mut VariableRegistry) -> (r: IRNode)
    ensures
        (r@, final(reg)@) == wrapped(node@, old(reg)@, old(reg).program@),
        *final(reg).program == *old(reg).program,
{
    wrap_walk(&node, reg)
}

/// Writes the branches that a reference is bound to through it.
fn wrap_walk(node: &IRNode, reg: &mut VariableRegistry) -> (r: IRNode)
    ensures
        (r@, final(reg)@) == wrapped(node@, old(reg)@, old(reg).program@),
        *final(reg).program == *old(reg).program,
    decreases node@,
{
    match node {
        IRNode::Let { pattern, value, body } => {
            let ghost ps = crate::ir::names(pattern@);
            assert(ps.len() == pattern@.len());
            let v = wrap_walk(value, reg);
            let through = if pattern.len() == 1 {
                assert(ps[0] == pattern@[0]@);
                match reg.get_type(&pattern[0]) {
                    Some(Type::MutableReference(_, _)) => is_branching(&v),
                    _ => false,
                }
            } else {
                false
            };
            let v1 = if through {
                wrap_branch_terminals(&v, &pattern[0])
            } else {
                v
            };
            if all_in_scope(&v1, reg) {
                let t = v1.get_type(reg);
                reg.register_pattern(pattern, t);
            }
            let b = wrap_walk(body, reg);
            IRNode::Let { pattern: clone_names(pattern), value: Box::new(v1), body: Box::new(b) }
        },
        _ => {
            let ghost vars = reg@;
            let ghost p = reg.program@;
            let ks = node.children();
            let mut out: Vec<IRNode> = Vec::new();
            let mut i: usize = 0;
            proof {
                node@.lemma_kids_decrease();
            }
            while i < ks.len()
                invariant
                    i <= ks.len(),
                    p == old(reg).program@,
                    *reg.program == *old(reg).program,
                    ks@.len() == node@.kids().len(),
                    forall|j: int| 0 <= j < ks@.len() ==> (#[trigger] ks@[j])@ == node@.kids()[j],
                    (IRNode::views(out@), reg@) == wrapped_kids(node@, vars, p, i as nat),
                    forall|j: int| 0 <= j < node@.kids().len() ==> decreases_to!(
                        node@ => #[trigger] node@.kids()[j]
                    ),
                decreases ks.len() - i,
            {
                assert(ks@[i as int]@ == node@.kids()[i as int]);
                let ghost before = out@;
                let m = wrap_walk(ks[i], reg);
                out.push(m);
                assert(IRNode::views(out@) =~= IRNode::views(before).push(m@));
                i += 1;
            }
            proof {
                lemma_wrapped_len(node@, vars, p, i as nat);
            }
            assert(out@.len() == IRNode::views(out@).len());
            node.with_children(out)
        },
    }
}

/// As many subexpressions come out as went in.
proof fn lemma_wrapped_len(n: Node, vars: Vars, p: Prog, k: nat)
    requires
        k <= n.kids().len(),
    ensures
        wrapped_kids(n, vars, p, k).0.len() == k,
    decreases k,
{
    if k > 0 {
        lemma_wrapped_len(n, vars, p, (k - 1) as nat);
    }
}

} // verus!
