//! Obligations, and the values that they are written with.

use crate::bundles::{
    path_views, clone_path, same_path, AbortsLeaf, AbortsObligation, AbortsProofNode, Claim,
    Obligation, Proof,
};
use crate::cut_types::{known_views, Known};
use crate::ir::{clone_names, IRNode, Node};
use crate::program::{Param, Parameter, Prog, Program, WorldFunctions};
use crate::segments::{has_proof_name, seg_call, Parent, Session, St, Whole, SUBST_MAX};
use crate::sizes::approx_size;
use crate::substitution::{bundle_subst, occurs_often, put_subst, subst_views, Subst};
use crate::text::{append, number_text};
use crate::traverse::{any_node, contains_name, free_vars, push_name, Test};
use crate::types::{FunctionID, Name, TempId, Type};
use vstd::prelude::*;

verus! {

/// Whether an abort stands in the expression.
pub open spec fn has_abort(n: Node) -> bool {
    n.any(|m: Node| m is Abort)
}

/// The test for an abort.
struct IsAbort;

impl Test for IsAbort {
    closed spec fn holds(&self, n: Node) -> bool {
        n is Abort
    }

    fn check(&self, n: &IRNode) -> (r: bool) {
        match n {
            IRNode::Abort { .. } => true,
            _ => false,
        }
    }
}

/// Whether an abort stands in the expression.
pub fn contains_abort_node(node: &IRNode) -> (r: bool)
    ensures
        r == has_abort(node@),
{
    let t = IsAbort;
    assert((|n: Node| t.holds(n)) =~= (|n: Node| n is Abort));
    any_node(node, &t)
}

/// Whether the expression composes mutable references.
pub open spec fn has_compose(n: Node) -> bool {
    n.any(|m: Node| m is MutableCompose)
}

/// The test for a composition of mutable references.
struct IsCompose;

impl Test for IsCompose {
    closed spec fn holds(&self, n: Node) -> bool {
        n is MutableCompose
    }

    fn check(&self, n: &IRNode) -> (r: bool) {
        match n {
            IRNode::MutableCompose { .. } => true,
            _ => false,
        }
    }
}

/// Whether the expression composes mutable references.
fn contains_compose(node: &IRNode) -> (r: bool)
    ensures
        r == has_compose(node@),
{
    let t = IsCompose;
    assert((|n: Node| t.holds(n)) =~= (|n: Node| n is MutableCompose));
    any_node(node, &t)
}

/// Whether the call is given an abort where a proof is due.
pub open spec fn lacks_proof(p: Prog, n: Node) -> bool {
    match n {
        Node::Call { function, args, .. } => p.has(function) && p.func(
            function,
        ).signature.proof_params.len() > 0 && args.len() > 0 && args.last() is Abort,
        _ => false,
    }
}

/// Whether the sides of a branch hold a call that is given an abort where a proof is
/// due; the branch then hands its condition to its sides.
pub open spec fn is_dependent(p: Prog, t: Node, e: Node) -> bool {
    t.any(|m: Node| lacks_proof(p, m)) || e.any(|m: Node| lacks_proof(p, m))
}

/// The test for a call that is given an abort where a proof is due.
struct LacksProof<'a> {
    program: &'a Program,
}

impl<'a> Test for LacksProof<'a> {
    closed spec fn holds(&self, n: Node) -> bool {
        lacks_proof(self.program@, n)
    }

    fn check(&self, n: &IRNode) -> (r: bool) {
        match n {
            IRNode::Call { function, args, .. } => {
                assert(IRNode::views(args@).len() == args@.len());
                match self.program.function_slot(*function) {
                    Some(k) => {
                        let f = &self.program.functions[k].1;
                        assert(f@.signature.proof_params.len()
                            == f.signature.proof_params@.len());
                        if f.signature.proof_params.len() == 0 || args.len() == 0 {
                            return false;
                        }
                        let last = &args[args.len() - 1];
                        assert(IRNode::views(args@).last() == last@);
                        match last {
                            IRNode::Abort { .. } => true,
                            _ => false,
                        }
                    },
                    None => false,
                }
            },
            _ => false,
        }
    }
}

/// Whether the sides of a branch hold a call that is given an abort where a proof is
/// due.
pub fn renderer_dep_if(program: &Program, then_branch: &IRNode, else_branch: &IRNode) -> (r: bool)
    ensures
        r == is_dependent(program@, then_branch@, else_branch@),
{
    let t = LacksProof { program };
    assert((|n: Node| t.holds(n)) =~= (|n: Node| lacks_proof(program@, n)));
    any_node(then_branch, &t) || any_node(else_branch, &t)
}

/// Whether a failed check is handed on as it is.
pub open spec fn propagates(binding: Name, some_branch: Node) -> bool {
    match some_branch {
        Node::OptionSome(inner) => *inner == Node::Var(binding),
        _ => false,
    }
}

/// Whether a failed check is handed on as it is.
pub fn is_abort_propagation(binding: &TempId, some_branch: &IRNode) -> (r: bool)
    ensures
        r == propagates(binding@, some_branch@),
{
    proof {
        reveal_with_fuel(IRNode::view, 2);
    }
    match some_branch {
        IRNode::OptionSome(inner) => match &**inner {
            IRNode::Var(v) => *v == *binding,
            _ => false,
        },
        _ => false,
    }
}

/// Whether the expression ends in a value, behind bindings.
pub open spec fn ends_in_some(n: Node) -> bool
    decreases n,
{
    match n {
        Node::OptionSome(_) => true,
        Node::Let { body, .. } => ends_in_some(*body),
        _ => false,
    }
}

/// Whether the expression ends in a value, behind bindings.
pub fn is_some_abort(node: &IRNode) -> (r: bool)
    ensures
        r == ends_in_some(node@),
    decreases node,
{
    match node {
        IRNode::OptionSome(_) => true,
        IRNode::Let { body, .. } => is_some_abort(body),
        _ => false,
    }
}

/// Whether one of the expressions mentions the variable.
pub open spec fn some_free(es: Seq<Node>, x: Name) -> bool {
    exists|i: int| 0 <= i < es.len() && (#[trigger] es[i]).free(x)
}

/// The conditions of premises.
pub open spec fn conditions(path: Seq<(Node, bool)>) -> Seq<Node> {
    Seq::new(path.len(), |i: int| path[i].0)
}

/// Whether an obligation mentions the variable.
pub open spec fn ob_mentions(path: Seq<(Node, bool)>, claim: Claim, x: Name) -> bool {
    some_free(claim.exprs(), x) || some_free(conditions(path), x)
}

/// Whether the variable is a parameter.
pub open spec fn is_param(w: Whole, x: Name) -> bool {
    exists|i: int| 0 <= i < w.params.len() && (#[trigger] w.params[i]).ssa_value == x
}

/// Whether the variable is a parameter.
fn has_param(w: &Parent, x: &TempId) -> (r: bool)
    ensures
        r == is_param(w@, x@),
{
    let ghost all = w@.params;
    let mut i: usize = 0;
    while i < w.params.len()
        invariant
            i <= w.params.len(),
            all == Parameter::views(w.params@),
            forall|j: int| 0 <= j < i ==> (#[trigger] all[j]).ssa_value != x@,
        decreases w.params.len() - i,
    {
        assert(all[i as int] == w.params@[i as int]@);
        if w.params[i].ssa_value == *x {
            return true;
        }
        i += 1;
    }
    false
}

/// Whether an obligation mentions parameters and proof parameters only.
pub open spec fn statable(w: Whole, path: Seq<(Node, bool)>, claim: Claim) -> bool {
    forall|x: Name|
        #[trigger] ob_mentions(path, claim, x) ==> is_param(w, x)
            || crate::segments::is_proof_name(w, x)
}

/// The parameters that an obligation mentions.
pub open spec fn ob_params(ps: Seq<Param>, path: Seq<(Node, bool)>, claim: Claim) -> Seq<Param>
    decreases ps.len(),
{
    if ps.len() == 0 {
        Seq::empty()
    } else {
        let before = ob_params(ps.drop_last(), path, claim);
        let q = ps.last();
        if ob_mentions(path, claim, q.ssa_value) {
            before.push(
                Param { name: q.ssa_value, param_type: q.param_type, ssa_value: q.ssa_value },
            )
        } else {
            before
        }
    }
}

/// The number of an obligation that is there.
pub open spec fn found_ob(obs: Seq<Obligation>, path: Seq<(Node, bool)>, claim: Claim) -> Option<
    nat,
>
    decreases obs.len(),
{
    if obs.len() == 0 {
        None
    } else {
        match found_ob(obs.drop_last(), path, claim) {
            Some(i) => Some(i),
            None => if obs.last().path == path && obs.last().leaf == claim {
                Some((obs.len() - 1) as nat)
            } else {
                None
            },
        }
    }
}

/// The number of an obligation, and where the cutting then stands; none where it
/// mentions something else than parameters.
pub open spec fn ob_made(s: St, w: Whole, path: Seq<(Node, bool)>, claim: Claim) -> (
    Option<nat>,
    St,
) {
    if !statable(w, path, claim) {
        (None, s)
    } else {
        match found_ob(s.obs, path, claim) {
            Some(i) => (Some(i), s),
            None => (
                Some(s.obs.len()),
                St {
                    obs: s.obs.push(
                        Obligation {
                            name: "ob_"@ + crate::text::decimal(s.obs.len() + 1),
                            parameters: ob_params(w.params, path, claim),
                            path,
                            leaf: claim,
                        },
                    ),
                    ..s
                },
            ),
        }
    }
}

/// Adds the free variables of an expression.
fn add_frees(node: &IRNode, out: &mut Vec<TempId>)
    ensures
        forall|x: Name|
            #[trigger] crate::ir::names(final(out)@).contains(x) <==> crate::ir::names(
                old(out)@,
            ).contains(x) || node@.free(x),
{
    let frees = free_vars(node);
    let ghost fs = crate::ir::names(frees@);
    let ghost start = crate::ir::names(out@);
    let mut i: usize = 0;
    while i < frees.len()
        invariant
            i <= frees.len(),
            fs == crate::ir::names(frees@),
            forall|x: Name|
                #[trigger] crate::ir::names(out@).contains(x) <==> start.contains(x) || exists|
                    k: int,
                |
                    0 <= k < i && #[trigger] fs[k] == x,
        decreases frees.len() - i,
    {
        let ghost before = crate::ir::names(out@);
        assert(fs[i as int] == frees@[i as int]@);
        push_name(out, &frees[i]);
        assert forall|x: Name|
            #[trigger] crate::ir::names(out@).contains(x) <==> start.contains(x) || exists|k: int|
                0 <= k < i + 1 && #[trigger] fs[k] == x by {
            assert(before.contains(x) <==> start.contains(x) || exists|k: int|
                0 <= k < i && #[trigger] fs[k] == x);
            if crate::ir::names(out@).contains(x) && !before.contains(x) {
                assert(fs[i as int] == x);
            }
        }
        i += 1;
    }
    assert forall|x: Name|
        #[trigger] crate::ir::names(out@).contains(x) <==> start.contains(x) || node@.free(x) by {
        assert(fs.contains(x) <==> node@.free(x));
        if fs.contains(x) {
            let k = choose|k: int| 0 <= k < fs.len() && fs[k] == x;
            assert(fs[k] == x);
        }
    }
}

/// Adds the free variables of some expressions.
fn add_all_frees(nodes: &Vec<IRNode>, out: &mut Vec<TempId>)
    ensures
        forall|x: Name|
            #[trigger] crate::ir::names(final(out)@).contains(x) <==> crate::ir::names(
                old(out)@,
            ).contains(x) || some_free(IRNode::views(nodes@), x),
{
    let ghost es = IRNode::views(nodes@);
    let ghost start = crate::ir::names(out@);
    let mut i: usize = 0;
    while i < nodes.len()
        invariant
            i <= nodes.len(),
            es == IRNode::views(nodes@),
            forall|x: Name|
                #[trigger] crate::ir::names(out@).contains(x) <==> start.contains(x) || exists|
                    k: int,
                |
                    0 <= k < i && (#[trigger] es[k]).free(x),
        decreases nodes.len() - i,
    {
        let ghost before = crate::ir::names(out@);
        assert(es[i as int] == nodes@[i as int]@);
        add_frees(&nodes[i], out);
        assert forall|x: Name|
            #[trigger] crate::ir::names(out@).contains(x) <==> start.contains(x) || exists|k: int|
                0 <= k < i + 1 && (#[trigger] es[k]).free(x) by {
            assert(before.contains(x) <==> start.contains(x) || exists|k: int|
                0 <= k < i && (#[trigger] es[k]).free(x));
            if crate::ir::names(out@).contains(x) && !before.contains(x) {
                assert(es[i as int].free(x));
            }
        }
        i += 1;
    }
    assert(es.len() == nodes@.len());
}

/// The variables that an obligation mentions.
fn ob_vars(path: &Vec<(IRNode, bool)>, leaf: &AbortsLeaf) -> (r: Vec<TempId>)
    ensures
        forall|x: Name|
            #[trigger] crate::ir::names(r@).contains(x) <==> ob_mentions(
                path_views(path@),
                leaf@,
                x,
            ),
{
    let mut out: Vec<TempId> = Vec::new();
    let ghost es = leaf@.exprs();
    match leaf {
        AbortsLeaf::GuardFalse(e) => {
            add_frees(e, &mut out);
            assert(es[0] == e@);
        },
        AbortsLeaf::GuardTrue(e) => {
            add_frees(e, &mut out);
            assert(es[0] == e@);
        },
        AbortsLeaf::OptionNone(e) => {
            add_frees(e, &mut out);
            assert(es[0] == e@);
        },
        AbortsLeaf::PropHolds(e) => {
            add_frees(e, &mut out);
            assert(es[0] == e@);
        },
        AbortsLeaf::RequiresHolds { args, .. } => {
            add_all_frees(args, &mut out);
        },
        AbortsLeaf::CalleeNoneUnderRequires { args, .. } => {
            add_all_frees(args, &mut out);
        },
    }
    let ghost own = crate::ir::names(out@);
    assert forall|x: Name| #[trigger] own.contains(x) <==> some_free(es, x) by {}
    let ghost cs = conditions(path_views(path@));
    let mut i: usize = 0;
    while i < path.len()
        invariant
            i <= path.len(),
            cs == conditions(path_views(path@)),
            forall|x: Name|
                #[trigger] crate::ir::names(out@).contains(x) <==> own.contains(x) || exists|
                    k: int,
                |
                    0 <= k < i && (#[trigger] cs[k]).free(x),
        decreases path.len() - i,
    {
        let ghost before = crate::ir::names(out@);
        assert(cs[i as int] == path@[i as int].0@);
        add_frees(&path[i].0, &mut out);
        assert forall|x: Name|
            #[trigger] crate::ir::names(out@).contains(x) <==> own.contains(x) || exists|k: int|
                0 <= k < i + 1 && (#[trigger] cs[k]).free(x) by {
            assert(before.contains(x) <==> own.contains(x) || exists|k: int|
                0 <= k < i && (#[trigger] cs[k]).free(x));
            if crate::ir::names(out@).contains(x) && !before.contains(x) {
                assert(cs[i as int].free(x));
            }
        }
        i += 1;
    }
    assert(cs.len() == path@.len());
    out
}

/// Whether an obligation mentions parameters and proof parameters only.
fn is_statable(
    w: &Parent,
    vars: &Vec<TempId>,
    Ghost(path): Ghost<Seq<(Node, bool)>>,
    Ghost(claim): Ghost<Claim>,
) -> (r: bool)
    requires
        forall|x: Name|
            #[trigger] crate::ir::names(vars@).contains(x) <==> ob_mentions(path, claim, x),
    ensures
        r == statable(w@, path, claim),
{
    let ghost vs = crate::ir::names(vars@);
    let mut i: usize = 0;
    while i < vars.len()
        invariant
            i <= vars.len(),
            vs == crate::ir::names(vars@),
            forall|x: Name| #[trigger] vs.contains(x) <==> ob_mentions(path, claim, x),
            forall|j: int|
                0 <= j < i ==> is_param(w@, #[trigger] vs[j]) || crate::segments::is_proof_name(
                    w@,
                    vs[j],
                ),
        decreases vars.len() - i,
    {
        assert(vs[i as int] == vars@[i as int]@);
        assert(vs.contains(vs[i as int]));
        if !has_param(w, &vars[i]) && !has_proof_name(w, &vars[i]) {
            assert(ob_mentions(path, claim, vs[i as int]));
            return false;
        }
        i += 1;
    }
    assert forall|x: Name| #[trigger] ob_mentions(path, claim, x) implies is_param(w@, x)
        || crate::segments::is_proof_name(w@, x) by {
        assert(vs.contains(x));
        let j = choose|j: int| 0 <= j < vs.len() && vs[j] == x;
        assert(is_param(w@, vs[j]) || crate::segments::is_proof_name(w@, vs[j]));
    }
    true
}

/// The parameters that an obligation mentions.
fn select_ob_params(
    w: &Parent,
    vars: &Vec<TempId>,
    Ghost(path): Ghost<Seq<(Node, bool)>>,
    Ghost(claim): Ghost<Claim>,
) -> (r: Vec<Parameter>)
    requires
        forall|x: Name|
            #[trigger] crate::ir::names(vars@).contains(x) <==> ob_mentions(path, claim, x),
    ensures
        Parameter::views(r@) == ob_params(w@.params, path, claim),
{
    let ghost all = w@.params;
    let mut out: Vec<Parameter> = Vec::new();
    let mut i: usize = 0;
    assert(Parameter::views(out@) =~= Seq::empty());
    assert(all.subrange(0, 0) =~= Seq::empty());
    while i < w.params.len()
        invariant
            i <= w.params.len(),
            all == Parameter::views(w.params@),
            forall|x: Name|
                #[trigger] crate::ir::names(vars@).contains(x) <==> ob_mentions(path, claim, x),
            Parameter::views(out@) == ob_params(all.subrange(0, i as int), path, claim),
        decreases w.params.len() - i,
    {
        let ghost next = all.subrange(0, i + 1);
        assert(next.drop_last() =~= all.subrange(0, i as int));
        let q = &w.params[i];
        assert(next.last() == q@);
        let hit = contains_name(vars, &q.ssa_value);
        assert(hit == ob_mentions(path, claim, q@.ssa_value));
        if hit {
            let ghost before = Parameter::views(out@);
            let param = Parameter {
                name: q.ssa_value.clone(),
                param_type: q.param_type.clone(),
                ssa_value: q.ssa_value.clone(),
            };
            out.push(param);
            assert(Parameter::views(out@) =~= before.push(param@));
        }
        i += 1;
    }
    assert(all.subrange(0, i as int) =~= all);
    out
}

/// The number of an obligation that is there.
fn find_ob(obs: &Vec<AbortsObligation>, path: &Vec<(IRNode, bool)>, leaf: &AbortsLeaf) -> (r: Option<
    usize,
>)
    ensures
        crate::coalesce::optional_place(r) == found_ob(
            AbortsObligation::views(obs@),
            path_views(path@),
            leaf@,
        ),
{
    let ghost all = AbortsObligation::views(obs@);
    let ghost pv = path_views(path@);
    let mut hit: Option<usize> = None;
    let mut i: usize = 0;
    assert(all.subrange(0, 0) =~= Seq::empty());
    while i < obs.len()
        invariant
            i <= obs.len(),
            all == AbortsObligation::views(obs@),
            pv == path_views(path@),
            crate::coalesce::optional_place(hit) == found_ob(
                all.subrange(0, i as int),
                pv,
                leaf@,
            ),
        decreases obs.len() - i,
    {
        let ghost next = all.subrange(0, i + 1);
        assert(next.drop_last() =~= all.subrange(0, i as int));
        assert(next.last() == obs@[i as int]@);
        if hit.is_none() && same_path(&obs[i].path, path) && obs[i].leaf.same(leaf) {
            hit = Some(i);
        }
        i += 1;
    }
    assert(all.subrange(0, i as int) =~= all);
    hit
}

impl Session {
    /// Records an obligation, and gives its number.
    pub fn add_obligation(&mut self, w: &Parent, path: &Vec<(IRNode, bool)>, leaf: AbortsLeaf) -> (r:
        Option<usize>)
        ensures
            (crate::coalesce::optional_place(r), final(self)@) == ob_made(
                old(self)@,
                w@,
                path_views(path@),
                leaf@,
            ),
    {
        let ghost s = self@;
        let ghost pv = path_views(path@);
        let vars = ob_vars(path, &leaf);
        if !is_statable(w, &vars, Ghost(pv), Ghost(leaf@)) {
            return None;
        }
        match find_ob(&self.obs, path, &leaf) {
            Some(i) => Some(i),
            None => {
                assert(s.obs.len() == self.obs@.len());
                let n = self.obs.len();
                let k: u128 = n as u128 + 1;
                let ob = AbortsObligation {
                    name: append("ob_", &number_text(k)),
                    parameters: select_ob_params(w, &vars, Ghost(pv), Ghost(leaf@)),
                    path: clone_path(path),
                    leaf,
                };
                self.obs.push(ob);
                assert(self@.obs =~= s.obs.push(ob@));
                Some(n)
            },
        }
    }
}

/// The arguments of a segment with the values of variables written out; none where
/// one cannot be.
pub open spec fn written_args(xs: Seq<Name>, subst: Subst) -> Option<Seq<Node>>
    decreases xs.len(),
{
    if xs.len() == 0 {
        Some(Seq::empty())
    } else {
        match written_args(xs.drop_last(), subst) {
            Some(args) => match crate::assoc::found(subst, xs.last()) {
                Some(Some(e)) => Some(args.push(e)),
                Some(None) => None,
                None => Some(args.push(Node::Var(xs.last()))),
            },
            None => None,
        }
    }
}

/// What an optional list of expressions holds.
pub open spec fn optional_nodes(x: Option<Vec<IRNode>>) -> Option<Seq<Node>> {
    match x {
        Some(v) => Some(IRNode::views(v@)),
        None => None,
    }
}

/// One argument that cannot be written out leaves none.
proof fn lemma_written_none(xs: Seq<Name>, subst: Subst, k: int)
    requires
        0 <= k <= xs.len(),
        written_args(xs.subrange(0, k), subst) is None,
    ensures
        written_args(xs, subst) is None,
    decreases xs.len(),
{
    if k == xs.len() {
        assert(xs.subrange(0, k) =~= xs);
    } else {
        assert(xs.drop_last().subrange(0, k) =~= xs.subrange(0, k));
        lemma_written_none(xs.drop_last(), subst, k);
    }
}

/// The arguments of a segment with the values of variables written out.
fn write_args(ps: &Vec<Parameter>, subst: &Vec<(TempId, Option<IRNode>)>) -> (r: Option<Vec<IRNode>>)
    ensures
        optional_nodes(r) == written_args(
            crate::segments::param_vars(Parameter::views(ps@)),
            subst_views(subst@),
        ),
{
    let ghost xs = crate::segments::param_vars(Parameter::views(ps@));
    let ghost sv = subst_views(subst@);
    let mut out: Vec<IRNode> = Vec::new();
    let mut i: usize = 0;
    assert(IRNode::views(out@) =~= Seq::empty());
    assert(xs.subrange(0, 0) =~= Seq::empty());
    while i < ps.len()
        invariant
            i <= ps.len(),
            xs == crate::segments::param_vars(Parameter::views(ps@)),
            sv == subst_views(subst@),
            Some(IRNode::views(out@)) == written_args(xs.subrange(0, i as int), sv),
        decreases ps.len() - i,
    {
        let ghost next = xs.subrange(0, i + 1);
        assert(next.drop_last() =~= xs.subrange(0, i as int));
        let x = &ps[i].ssa_value;
        assert(next.last() == x@);
        proof {
            crate::substitution::lemma_subst_keys(subst@);
        }
        let ghost before = IRNode::views(out@);
        match crate::assoc::place_of(subst, x) {
            Some(k) => {
                assert(sv[k as int].1 == crate::substitution::optional_node(subst@[k as int].1));
                match &subst[k].1 {
                    Some(e) => {
                        out.push(e.clone());
                        assert(IRNode::views(out@) =~= before.push(e@));
                    },
                    None => {
                        proof {
                            assert(written_args(next, sv) is None);
                            lemma_written_none(xs, sv, i + 1);
                        }
                        return None;
                    },
                }
            },
            None => {
                let v = IRNode::Var(x.clone());
                out.push(v);
                assert(IRNode::views(out@) =~= before.push(v@));
            },
        }
        i += 1;
    }
    assert(xs.subrange(0, i as int) =~= xs);
    Some(out)
}

/// Whether a segment of the expression can be called with written-out arguments:
/// the type of each of its variables can be told, and its value written out.
pub open spec fn callable(w: Whole, n: Node, known: Known, subst: Subst) -> bool {
    crate::spine_cuts::typed(w, n, known) && forall|x: Name|
        #[trigger] n.free(x) ==> crate::segments::is_proof_name(w, x) || crate::assoc::found(
            subst,
            x,
        ) != Some(None::<Node>)
}

/// Whether the value of each variable of the expression can be written out.
fn all_written(w: &Parent, node: &IRNode, subst: &Vec<(TempId, Option<IRNode>)>) -> (r: bool)
    ensures
        r == forall|x: Name|
            #[trigger] node@.free(x) ==> crate::segments::is_proof_name(w@, x)
                || crate::assoc::found(subst_views(subst@), x) != Some(None::<Node>),
{
    let frees = free_vars(node);
    let ghost fs = crate::ir::names(frees@);
    let ghost sv = subst_views(subst@);
    let mut i: usize = 0;
    while i < frees.len()
        invariant
            i <= frees.len(),
            fs == crate::ir::names(frees@),
            sv == subst_views(subst@),
            forall|x: Name| #[trigger] fs.contains(x) <==> node@.free(x),
            forall|j: int|
                0 <= j < i ==> crate::segments::is_proof_name(w@, #[trigger] fs[j])
                    || crate::assoc::found(sv, fs[j]) != Some(None::<Node>),
        decreases frees.len() - i,
    {
        assert(fs[i as int] == frees@[i as int]@);
        assert(fs.contains(fs[i as int]));
        proof {
            crate::substitution::lemma_subst_keys(subst@);
        }
        let hidden = match crate::assoc::place_of(subst, &frees[i]) {
            Some(k) => {
                assert(sv[k as int].1 == crate::substitution::optional_node(subst@[k as int].1));
                subst[k].1.is_none()
            },
            None => false,
        };
        if hidden && !has_proof_name(w, &frees[i]) {
            assert(node@.free(fs[i as int]));
            return false;
        }
        i += 1;
    }
    assert forall|x: Name| #[trigger] node@.free(x) implies crate::segments::is_proof_name(w@, x)
        || crate::assoc::found(sv, x) != Some(None::<Node>) by {
        assert(fs.contains(x));
        let j = choose|j: int| 0 <= j < fs.len() && fs[j] == x;
        assert(crate::segments::is_proof_name(w@, fs[j]) || crate::assoc::found(sv, fs[j]) != Some(
            None::<Node>,
        ));
    }
    true
}

/// The proof that rests on one obligation about a segment of the expression; none
/// where the segment cannot be made, called or stated.
pub open spec fn opaque_made(
    s: St,
    w: Whole,
    n: Node,
    known: Known,
    subst: Subst,
    path: Seq<(Node, bool)>,
    as_prop: bool,
) -> (Option<Proof>, St) {
    if !callable(w, n, known, subst) {
        (None, s)
    } else {
        let (id, s1) = crate::segments::segment_made(s, w, n, known);
        match id {
            Some(f) if s1.p.has(f) => {
                let sig = s1.p.func(f).signature;
                match written_args(crate::segments::param_vars(sig.parameters), subst) {
                    Some(args) => {
                        let call = Node::Call {
                            function: f,
                            type_args: Seq::empty(),
                            args: args + crate::phi_lifting::var_nodes(
                                crate::segments::proof_names(sig.proof_params),
                            ),
                        };
                        let s2 = St {
                            replaced: s1.replaced.push(
                                (n, crate::segments::segment_call(s1.p, f)),
                            ),
                            ..s1
                        };
                        let (ob, s3) = ob_made(
                            s2,
                            w,
                            path,
                            if as_prop {
                                Claim::PropHolds(call)
                            } else {
                                Claim::OptionNone(call)
                            },
                        );
                        match ob {
                            Some(i) => (Some(Proof::Leaf { ob: i }), s3),
                            None => (None, s3),
                        }
                    },
                    None => (None, s1),
                }
            },
            _ => (None, s1),
        }
    }
}

impl Session {
    /// Lets a proof rest on one obligation about a segment of the expression.
    pub fn bundle_opaque_leaf(
        &mut self,
        w: &Parent,
        node: &IRNode,
        known: &Vec<(TempId, Option<Type>)>,
        subst: &Vec<(TempId, Option<IRNode>)>,
        path: &Vec<(IRNode, bool)>,
        as_prop: bool,
    ) -> (r: Option<AbortsProofNode>)
        ensures
            (crate::bundles::optional_proof(r), final(self)@) == opaque_made(
                old(self)@,
                w@,
                node@,
                known_views(known@),
                subst_views(subst@),
                path_views(path@),
                as_prop,
            ),
    {
        if !crate::spine_cuts::all_typed(w, node, known) || !all_written(w, node, subst) {
            return None;
        }
        let f = match self.create_segment(w, node, known) {
            Some(f) => f,
            None => {
                return None;
            },
        };
        let ghost s1 = self@;
        let k = match self.program.function_slot(f) {
            Some(k) => k,
            None => {
                return None;
            },
        };
        let sig = &self.program.functions[k].1.signature;
        assert(sig@ == s1.p.func(f).signature);
        let mut args = match write_args(&sig.parameters, subst) {
            Some(args) => args,
            None => {
                return None;
            },
        };
        let names = crate::segments::names_of_proofs(&sig.proof_params);
        crate::phi_lifting::push_vars(&mut args, &names);
        let call = IRNode::Call { function: f, type_args: Vec::new(), args };
        assert(Type::views(call->Call_type_args@) =~= Seq::empty());
        let in_place = seg_call(&self.program, f);
        self.replaced.push((node.clone(), in_place));
        assert(self@.replaced =~= s1.replaced.push((node@, in_place@)));
        let leaf = if as_prop {
            AbortsLeaf::PropHolds(call)
        } else {
            AbortsLeaf::OptionNone(call)
        };
        match self.add_obligation(w, path, leaf) {
            Some(i) => Some(AbortsProofNode::Leaf { ob: i }),
            None => None,
        }
    }
}

/// The longest value that is written out where its variable stands more than once.
pub const MULTI_USE_SUBST_MAX: usize = 16;

/// The expression with the function applied a number of times.
pub open spec fn applied(f: FunctionID, n: Node, k: nat) -> Node
    decreases k,
{
    if k == 0 {
        n
    } else {
        Node::Call { function: f, type_args: Seq::empty(), args: seq![applied(f, n, (k - 1) as nat)] }
    }
}

/// The `i`th of `n` parts of a tuple: with the world's projections, or taken apart
/// by a binding.
pub open spec fn part_of(
    world: Option<WorldFunctions>,
    pattern: Seq<Name>,
    value: Node,
    i: int,
) -> Node {
    match world {
        Some(f) => {
            let rest = applied(f.psnd, value, i as nat);
            if i < pattern.len() - 1 {
                applied(f.pfst, rest, 1)
            } else {
                rest
            }
        },
        None => Node::Let {
            pattern,
            value: Box::new(value),
            body: Box::new(Node::Var(pattern[i])),
        },
    }
}

/// The values of variables, with those of the first `k` parts of a tuple.
pub open spec fn with_parts(
    subst: Subst,
    world: Option<WorldFunctions>,
    pattern: Seq<Name>,
    value: Option<Node>,
    k: nat,
) -> Subst
    decreases k,
{
    if k == 0 {
        subst
    } else {
        crate::assoc::put(
            with_parts(subst, world, pattern, value, (k - 1) as nat),
            pattern[k - 1],
            match value {
                Some(v) => Some(part_of(world, pattern, v, k - 1)),
                None => None,
            },
        )
    }
}

/// The value of a variable, if it is short enough to be written out; where it is
/// shared, shorter still.
pub open spec fn short_value(value: Node, subst: Subst, shared: bool) -> Option<Node> {
    match crate::substitution::substituted(value, subst) {
        Some(e) => if crate::sizes::text_len(e) <= SUBST_MAX && !(shared
            && crate::sizes::text_len(e) > MULTI_USE_SUBST_MAX) {
            Some(e)
        } else {
            None
        },
        None => None,
    }
}

/// The value of a variable, if it is short enough to be written out.
pub fn shorten(value: &IRNode, subst: &Vec<(TempId, Option<IRNode>)>, shared: bool) -> (r: Option<
    IRNode,
>)
    ensures
        crate::substitution::optional_node(r) == short_value(
            value@,
            subst_views(subst@),
            shared,
        ),
{
    match bundle_subst(value, subst) {
        Some(e) => {
            let n = approx_size(&e);
            if n <= SUBST_MAX && !(shared && n > MULTI_USE_SUBST_MAX) {
                Some(e)
            } else {
                None
            }
        },
        None => None,
    }
}

/// The values of variables behind a binding, and whether one of them cannot be
/// written out. Where sharing counts, a variable that stands more than once in the
/// whole expression is written out only if its value is very short.
pub open spec fn bound_values(
    whole: Node,
    sharing: bool,
    world: Option<WorldFunctions>,
    pattern: Seq<Name>,
    value: Node,
    subst: Subst,
) -> (Subst, bool) {
    if pattern.len() == 0 {
        (subst, has_compose(value))
    } else if pattern.len() == 1 {
        let v = short_value(
            value,
            subst,
            sharing && crate::substitution::stands_often(whole, pattern[0]),
        );
        (crate::assoc::put(subst, pattern[0], v), v is None)
    } else {
        let v = short_value(value, subst, false);
        (with_parts(subst, world, pattern, v, pattern.len()), v is None)
    }
}

/// The expression with the function applied a number of times.
fn apply_times(f: FunctionID, n: IRNode, k: usize) -> (r: IRNode)
    ensures
        r@ == applied(f, n@, k as nat),
{
    let ghost start = n@;
    let mut out = n;
    let mut i: usize = 0;
    while i < k
        invariant
            i <= k,
            out@ == applied(f, start, i as nat),
        decreases k - i,
    {
        let ghost before = out@;
        let mut args: Vec<IRNode> = Vec::new();
        args.push(out);
        assert(IRNode::views(args@) =~= seq![before]);
        let call = IRNode::Call { function: f, type_args: Vec::new(), args };
        assert(Type::views(call->Call_type_args@) =~= Seq::empty());
        out = call;
        i += 1;
    }
    out
}

/// The `i`th part of a tuple.
fn take_part(world: &Option<WorldFunctions>, pattern: &Vec<TempId>, value: &IRNode, i: usize) -> (r:
    IRNode)
    requires
        i < pattern@.len(),
    ensures
        r@ == part_of(*world, crate::ir::names(pattern@), value@, i as int),
{
    let ghost ps = crate::ir::names(pattern@);
    assert(ps.len() == pattern@.len());
    match world {
        Some(f) => {
            let rest = apply_times(f.psnd, value.clone(), i);
            if i < pattern.len() - 1 {
                apply_times(f.pfst, rest, 1)
            } else {
                rest
            }
        },
        None => {
            let own = IRNode::Var(pattern[i].clone());
            assert(own@ == Node::Var(ps[i as int]));
            IRNode::Let {
                pattern: clone_names(pattern),
                value: Box::new(value.clone()),
                body: Box::new(own),
            }
        },
    }
}

/// Records the values of variables behind a binding, and tells whether one of them
/// cannot be written out.
pub fn bind_values(
    whole: &IRNode,
    sharing: bool,
    world: &Option<WorldFunctions>,
    pattern: &Vec<TempId>,
    value: &IRNode,
    subst: &mut Vec<(TempId, Option<IRNode>)>,
) -> (r: bool)
    ensures
        (subst_views(final(subst)@), r) == bound_values(
            whole@,
            sharing,
            *world,
            crate::ir::names(pattern@),
            value@,
            subst_views(old(subst)@),
        ),
{
    let ghost ps = crate::ir::names(pattern@);
    let ghost start = subst_views(subst@);
    assert(ps.len() == pattern@.len());
    if pattern.len() == 0 {
        return contains_compose(value);
    }
    if pattern.len() == 1 {
        assert(ps[0] == pattern@[0]@);
        let shared = sharing && occurs_often(whole, &pattern[0]);
        let v = shorten(value, subst, shared);
        let bad = v.is_none();
        put_subst(subst, &pattern[0], v);
        return bad;
    }
    let v = shorten(value, subst, false);
    let ghost vv = crate::substitution::optional_node(v);
    let mut i: usize = 0;
    while i < pattern.len()
        invariant
            i <= pattern.len(),
            ps == crate::ir::names(pattern@),
            ps.len() == pattern@.len(),
            vv == crate::substitution::optional_node(v),
            subst_views(subst@) == with_parts(start, *world, ps, vv, i as nat),
        decreases pattern.len() - i,
    {
        assert(ps[i as int] == pattern@[i as int]@);
        let part = match &v {
            Some(e) => Some(take_part(world, pattern, e, i)),
            None => None,
        };
        put_subst(subst, &pattern[i], part);
        i += 1;
    }
    v.is_none()
}

} // verus!
