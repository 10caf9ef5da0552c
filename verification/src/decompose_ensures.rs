//! Splitting the companions that state what a function ensures into obligations.

use crate::bundles::{
    longer_path, path_views, AbortsBundle, AbortsLeaf, AbortsObligation, AbortsProofNode, Bundle,
    Claim, Proof,
};
use crate::cut_types::{clone_known, known_views, register_pattern, try_type, Known};
use crate::decompose_aborts::{
    begin, is_splittable, keep_callers, know_params, option_enabled, optional_stuck, parent_of,
    replace_parts, Poison, Stuck,
};
use crate::ir::{BinOp, Const, IRNode, Lit, Node};
use crate::obligations::{bind_values, contains_abort_node, renderer_dep_if};
use crate::program::{Func, Prog, Program};
use crate::segments::{Parent, Session, St, Whole};
use crate::substitution::{
    bundle_subst, clone_subst, fold_all_projs, put_subst, subst_exprs, subst_views, Subst,
};
use crate::text::{is_digits, split_at_last, strip_start};
use crate::types::{FunctionID, Name, TempId, Ty, Type};
use vstd::prelude::*;

verus! {

/// Whether companions that state what is ensured are split: a module asks for it.
pub fn ensures_bundles_enabled(program: &Program) -> (r: bool)
    ensures
        r == crate::decompose_aborts::has_option(
            program@.decls.module_options,
            "ensures_bundles"@,
        ),
{
    option_enabled(program, "ensures_bundles")
}

/// Whether the text is empty, or an underscore and a number.
pub open spec fn ensures_suffix(rest: Seq<char>) -> bool {
    rest.len() == 0 || (rest.len() > 1 && rest[0] == '_' && crate::text::all_digits(
        rest.subrange(1, rest.len() as int),
    ))
}

/// Whether the text is empty, or an underscore and a number.
fn is_ensures_suffix(rest: &str) -> (r: bool)
    ensures
        r == ensures_suffix(rest@),
{
    let ghost rv = rest@;
    let n: usize = rest.unicode_len();
    if n == 0 {
        return true;
    }
    let first = rest.get_char(0);
    if first != '_' || n == 1 {
        return false;
    }
    assert("_"@ == seq!['_']) by {
        reveal_strlit("_");
        assert("_"@ =~= seq!['_']);
    }
    match strip_start(rest, "_") {
        Some(number) => is_digits(&number),
        None => {
            assert(rv.subrange(0, 1) =~= seq!['_']);
            false
        },
    }
}

/// Whether the name is that of a companion that states what is ensured: behind the
/// last `.ensures` stands nothing, or an underscore and a number.
pub open spec fn ensures_name(name: Name) -> bool {
    crate::text::occurs(name, ".ensures"@) && ensures_suffix(
        crate::text::behind_last(name, ".ensures"@),
    )
}

/// Whether the name is that of a companion that states what is ensured.
fn is_ensures_name(name: &str) -> (r: bool)
    ensures
        r == ensures_name(name@),
{
    assert(".ensures"@.len() > 0) by {
        reveal_strlit(".ensures");
    }
    match split_at_last(name, ".ensures") {
        Some((front, rest)) => {
            proof {
                crate::text::lemma_split_last(name@, ".ensures"@, front@, rest@);
            }
            is_ensures_suffix(&rest)
        },
        None => false,
    }
}

/// The expression behind its bindings of one name, with their values in the place of
/// the names, and all fields of known structures taken.
pub open spec fn unwrapped(n: Node, subst: Subst) -> Node
    decreases n,
{
    match n {
        Node::Let { pattern, value, body } => if pattern.len() == 1 {
            unwrapped(
                *body,
                crate::assoc::put(
                    subst,
                    pattern[0],
                    Some(crate::substitution::inlined(*value, subst)),
                ),
            )
        } else {
            crate::substitution::all_projected(crate::substitution::inlined(n, subst))
        },
        _ => crate::substitution::all_projected(crate::substitution::inlined(n, subst)),
    }
}

/// The expression behind its bindings of one name.
fn strip_lets(node: &IRNode, subst: &mut Vec<(TempId, Option<IRNode>)>) -> (r: IRNode)
    ensures
        r@ == unwrapped(node@, subst_views(old(subst)@)),
    decreases node,
{
    match node {
        IRNode::Let { pattern, value, body } => {
            assert(crate::ir::names(pattern@).len() == pattern@.len());
            if pattern.len() == 1 {
                assert(crate::ir::names(pattern@)[0] == pattern@[0]@);
                let v = subst_exprs(value, subst);
                put_subst(subst, &pattern[0], Some(v));
                return strip_lets(body, subst);
            }
        },
        _ => {},
    }
    let out = subst_exprs(node, subst);
    fold_all_projs(&out)
}

/// The expression behind its bindings of one name.
fn strip_bool_lets(node: &IRNode) -> (r: IRNode)
    ensures
        r@ == unwrapped(node@, Seq::empty()),
{
    let mut subst: Vec<(TempId, Option<IRNode>)> = Vec::new();
    assert(subst_views(subst@) =~= Seq::empty());
    strip_lets(node, &mut subst)
}

/// The proof of a proposition; none where it cannot be stated. Also where the
/// cutting then stands. Boolean expressions are taken apart as deep as given.
pub open spec fn shown(
    n: Node,
    s: St,
    w: Whole,
    known: Known,
    subst: Subst,
    path: Seq<(Node, bool)>,
    depth: nat,
) -> (Option<Proof>, St)
    decreases 4 * depth + 3, n, 2nat,
{
    if n is Let {
        shown_on(n, s, w, known, subst, path, None, depth)
    } else {
        shown_end(n, s, w, known, subst, path, depth)
    }
}

/// The proof of what is left of a proposition. What cannot be stated makes the rest
/// one segment, from the first variable on that cannot be written out.
pub open spec fn shown_on(
    n: Node,
    s: St,
    w: Whole,
    known: Known,
    subst: Subst,
    path: Seq<(Node, bool)>,
    stuck: Option<Stuck>,
    depth: nat,
) -> (Option<Proof>, St)
    decreases 4 * depth + 3, n, 1nat,
{
    match n {
        Node::Let { pattern, value, body } => {
            let (subst1, bad) = crate::obligations::bound_values(
                n,
                false,
                s.p.world_functions,
                pattern,
                *value,
                subst,
            );
            let stuck1 = if stuck is None && bad {
                Some(Stuck { tail: n, known, subst, behind: 0 })
            } else {
                stuck
            };
            let known1 = crate::cut_types::behind(
                known,
                pattern,
                crate::cut_types::told_type(*value, known, s.p),
            );
            shown_on(*body, s, w, known1, subst1, path, stuck1, depth)
        },
        _ => {
            let (proof_, s1) = shown_end(n, s, w, known, subst, path, depth);
            match proof_ {
                Some(q) => (Some(q), s1),
                None => match stuck {
                    Some(k) => crate::obligations::opaque_made(
                        s1,
                        w,
                        k.tail,
                        k.known,
                        k.subst,
                        path,
                        true,
                    ),
                    None => crate::obligations::opaque_made(s1, w, n, known, subst, path, true),
                },
            }
        },
    }
}

/// The proof of two propositions.
pub open spec fn both_shown(
    a: Node,
    b: Node,
    s: St,
    w: Whole,
    known: Known,
    subst: Subst,
    on_a: Seq<(Node, bool)>,
    on_b: Seq<(Node, bool)>,
    depth: nat,
) -> (Option<(Proof, Proof)>, St)
    decreases 4 * depth + 4, Node::OptionNone, 0nat,
{
    let (x, s1) = shown(a, s, w, known, subst, on_a, depth);
    match x {
        Some(q) => {
            let (y, s2) = shown(b, s1, w, known, subst, on_b, depth);
            match y {
                Some(r) => (Some((q, r)), s2),
                None => (None, s2),
            }
        },
        None => (None, s1),
    }
}

/// The proof of a boolean expression that is taken as a proposition.
pub open spec fn truth_shown(
    e: Node,
    s: St,
    w: Whole,
    known: Known,
    subst: Subst,
    path: Seq<(Node, bool)>,
    depth: nat,
) -> (Option<Proof>, St)
    decreases 4 * depth + 2, Node::OptionNone, 0nat,
{
    match e {
        Node::Const(Lit::Bool(true)) => (Some(Proof::Rfl), s),
        Node::BinOp { op: BinOp::And, lhs, rhs } if depth > 0 => {
            let (parts, s1) = both_shown(
                Node::ToProp(lhs),
                Node::ToProp(rhs),
                s,
                w,
                known,
                subst,
                path,
                path,
                (depth - 1) as nat,
            );
            match parts {
                Some((a, b)) => (Some(Proof::AndBool(Box::new(a), Box::new(b))), s1),
                None => (None, s1),
            }
        },
        Node::If { cond, then_branch, else_branch } if depth > 0 => {
            let (parts, s1) = both_shown(
                Node::ToProp(then_branch),
                Node::ToProp(else_branch),
                s,
                w,
                known,
                subst,
                path.push((*cond, true)),
                path.push((*cond, false)),
                (depth - 1) as nat,
            );
            match parts {
                Some((a, b)) => (Some(Proof::BIteBool(Box::new(a), Box::new(b))), s1),
                None => (None, s1),
            }
        },
        _ => crate::decompose_aborts::leaf_made(
            s,
            w,
            path,
            Claim::PropHolds(Node::ToProp(Box::new(e))),
        ),
    }
}

/// The proof of a proposition that is no binding.
pub open spec fn shown_end(
    n: Node,
    s: St,
    w: Whole,
    known: Known,
    subst: Subst,
    path: Seq<(Node, bool)>,
    depth: nat,
) -> (Option<Proof>, St)
    decreases 4 * depth + 3, n, 0nat,
{
    if crate::obligations::has_abort(n) {
        crate::obligations::opaque_made(s, w, n, known, subst, path, true)
    } else {
        match n {
            Node::ToProp(inner) => match crate::substitution::substituted(*inner, subst) {
                Some(e) => truth_shown(
                    unwrapped(e, Seq::empty()),
                    s,
                    w,
                    known,
                    subst,
                    path,
                    depth,
                ),
                None => crate::obligations::opaque_made(s, w, n, known, subst, path, true),
            },
            Node::If { cond, then_branch, else_branch } => {
                let sc = crate::substitution::substituted(*cond, subst);
                if crate::obligations::is_dependent(s.p, *then_branch, *else_branch)
                    || crate::cut_types::told_type(*cond, known, s.p) != Some(Ty::Bool)
                    || sc is None {
                    crate::obligations::opaque_made(s, w, n, known, subst, path, true)
                } else {
                    let (t, s1) = shown(
                        *then_branch,
                        s,
                        w,
                        known,
                        subst,
                        path.push((sc->0, true)),
                        depth,
                    );
                    match t {
                        Some(a) => {
                            let (e, s2) = shown(
                                *else_branch,
                                s1,
                                w,
                                known,
                                subst,
                                path.push((sc->0, false)),
                                depth,
                            );
                            match e {
                                Some(b) => (Some(Proof::PIte(Box::new(a), Box::new(b))), s2),
                                None => (None, s2),
                            }
                        },
                        None => (None, s1),
                    }
                }
            },
            _ => match crate::substitution::substituted(n, subst) {
                Some(e) => crate::decompose_aborts::leaf_made(s, w, path, Claim::PropHolds(e)),
                None => crate::obligations::opaque_made(s, w, n, known, subst, path, true),
            },
        }
    }
}

impl Session {
    /// Finds the proof of a proposition.
    fn ensures_expr(
        &mut self,
        w: &Parent,
        node: &IRNode,
        known: &Vec<(TempId, Option<Type>)>,
        subst: &Vec<(TempId, Option<IRNode>)>,
        path: &Vec<(IRNode, bool)>,
        depth: u64,
    ) -> (r: Option<AbortsProofNode>)
        ensures
            (crate::bundles::optional_proof(r), final(self)@) == shown(
                node@,
                old(self)@,
                w@,
                known_views(known@),
                subst_views(subst@),
                path_views(path@),
                depth as nat,
            ),
        decreases 4 * depth + 3, node, 2nat,
    {
        match node {
            IRNode::Let { .. } => self.ensures_spine(
                w,
                node,
                clone_known(known),
                clone_subst(subst),
                path,
                None,
                depth,
            ),
            _ => self.ensures_end(w, node, known, subst, path, depth),
        }
    }

    /// Finds the proof of what is left of a proposition.
    fn ensures_spine(
        &mut self,
        w: &Parent,
        node: &IRNode,
        known: Vec<(TempId, Option<Type>)>,
        subst: Vec<(TempId, Option<IRNode>)>,
        path: &Vec<(IRNode, bool)>,
        stuck: Option<Poison>,
        depth: u64,
    ) -> (r: Option<AbortsProofNode>)
        ensures
            (crate::bundles::optional_proof(r), final(self)@) == shown_on(
                node@,
                old(self)@,
                w@,
                known_views(known@),
                subst_views(subst@),
                path_views(path@),
                optional_stuck(stuck),
                depth as nat,
            ),
        decreases 4 * depth + 3, node, 1nat,
    {
        match node {
            IRNode::Let { pattern, value, body } => {
                let mut subst1 = clone_subst(&subst);
                let bad = bind_values(
                    node,
                    false,
                    &self.program.world_functions,
                    pattern,
                    value,
                    &mut subst1,
                );
                let t = try_type(value, &known, &self.program);
                let mut known1 = clone_known(&known);
                register_pattern(&mut known1, pattern, &t);
                let stuck1 = if stuck.is_none() && bad {
                    Some(Poison { tail: node.clone(), known, subst, behind: 0 })
                } else {
                    stuck
                };
                self.ensures_spine(w, body, known1, subst1, path, stuck1, depth)
            },
            _ => match self.ensures_end(w, node, &known, &subst, path, depth) {
                Some(q) => Some(q),
                None => match stuck {
                    Some(k) => self.bundle_opaque_leaf(
                        w,
                        &k.tail,
                        &k.known,
                        &k.subst,
                        path,
                        true,
                    ),
                    None => self.bundle_opaque_leaf(w, node, &known, &subst, path, true),
                },
            },
        }
    }

    /// Finds the proofs of two propositions.
    fn ensures_both(
        &mut self,
        w: &Parent,
        a: &IRNode,
        b: &IRNode,
        known: &Vec<(TempId, Option<Type>)>,
        subst: &Vec<(TempId, Option<IRNode>)>,
        on_a: &Vec<(IRNode, bool)>,
        on_b: &Vec<(IRNode, bool)>,
        depth: u64,
    ) -> (r: Option<(AbortsProofNode, AbortsProofNode)>)
        ensures
            ({
                let (parts, s1) = both_shown(
                    a@,
                    b@,
                    old(self)@,
                    w@,
                    known_views(known@),
                    subst_views(subst@),
                    path_views(on_a@),
                    path_views(on_b@),
                    depth as nat,
                );
                &&& final(self)@ == s1
                &&& match r {
                    Some((x, y)) => parts == Some((x@, y@)),
                    None => parts is None,
                }
            }),
        decreases 4 * depth + 4, a, 0nat,
    {
        match self.ensures_expr(w, a, known, subst, on_a, depth) {
            Some(x) => match self.ensures_expr(w, b, known, subst, on_b, depth) {
                Some(y) => Some((x, y)),
                None => None,
            },
            None => None,
        }
    }

    /// Finds the proof of a boolean expression that is taken as a proposition.
    #[verifier::rlimit(60)]
    fn ensures_truth(
        &mut self,
        w: &Parent,
        e: IRNode,
        known: &Vec<(TempId, Option<Type>)>,
        subst: &Vec<(TempId, Option<IRNode>)>,
        path: &Vec<(IRNode, bool)>,
        depth: u64,
    ) -> (r: Option<AbortsProofNode>)
        ensures
            (crate::bundles::optional_proof(r), final(self)@) == truth_shown(
                e@,
                old(self)@,
                w@,
                known_views(known@),
                subst_views(subst@),
                path_views(path@),
                depth as nat,
            ),
        decreases 4 * depth + 2, e, 0nat,
    {
        match e {
            IRNode::Const(Const::Bool(true)) => Some(AbortsProofNode::Rfl),
            IRNode::BinOp { op: BinOp::And, lhs, rhs } if depth > 0 => {
                let a = IRNode::ToProp(lhs);
                let b = IRNode::ToProp(rhs);
                match self.ensures_both(w, &a, &b, known, subst, path, path, depth - 1) {
                    Some((x, y)) => Some(AbortsProofNode::AndBool(Box::new(x), Box::new(y))),
                    None => None,
                }
            },
            IRNode::If { cond, then_branch, else_branch } if depth > 0 => {
                let on_true = longer_path(path, &cond, true);
                let on_false = longer_path(path, &cond, false);
                let a = IRNode::ToProp(then_branch);
                let b = IRNode::ToProp(else_branch);
                match self.ensures_both(w, &a, &b, known, subst, &on_true, &on_false, depth - 1) {
                    Some((x, y)) => Some(AbortsProofNode::BIteBool(Box::new(x), Box::new(y))),
                    None => None,
                }
            },
            other => self.make_leaf(
                w,
                path,
                AbortsLeaf::PropHolds(IRNode::ToProp(Box::new(other))),
            ),
        }
    }

    /// Finds the proof of a proposition that is no binding.
    #[verifier::rlimit(60)]
    fn ensures_end(
        &mut self,
        w: &Parent,
        node: &IRNode,
        known: &Vec<(TempId, Option<Type>)>,
        subst: &Vec<(TempId, Option<IRNode>)>,
        path: &Vec<(IRNode, bool)>,
        depth: u64,
    ) -> (r: Option<AbortsProofNode>)
        ensures
            (crate::bundles::optional_proof(r), final(self)@) == shown_end(
                node@,
                old(self)@,
                w@,
                known_views(known@),
                subst_views(subst@),
                path_views(path@),
                depth as nat,
            ),
        decreases 4 * depth + 3, node, 0nat,
    {
        if contains_abort_node(node) {
            return self.bundle_opaque_leaf(w, node, known, subst, path, true);
        }
        match node {
            IRNode::ToProp(inner) => match bundle_subst(inner, subst) {
                Some(e) => {
                    let bare = strip_bool_lets(&e);
                    self.ensures_truth(w, bare, known, subst, path, depth)
                },
                None => self.bundle_opaque_leaf(w, node, known, subst, path, true),
            },
            IRNode::If { cond, then_branch, else_branch } => {
                let bool_cond = match try_type(cond, known, &self.program) {
                    Some(Type::Bool) => true,
                    _ => false,
                };
                let sc = bundle_subst(cond, subst);
                if renderer_dep_if(&self.program, then_branch, else_branch) || !bool_cond {
                    return self.bundle_opaque_leaf(w, node, known, subst, path, true);
                }
                match sc {
                    Some(c) => {
                        let on_true = longer_path(path, &c, true);
                        let on_false = longer_path(path, &c, false);
                        match self.ensures_expr(w, then_branch, known, subst, &on_true, depth) {
                            Some(a) => match self.ensures_expr(
                                w,
                                else_branch,
                                known,
                                subst,
                                &on_false,
                                depth,
                            ) {
                                Some(b) => Some(
                                    AbortsProofNode::PIte(Box::new(a), Box::new(b)),
                                ),
                                None => None,
                            },
                            None => None,
                        }
                    },
                    None => self.bundle_opaque_leaf(w, node, known, subst, path, true),
                }
            },
            _ => match bundle_subst(node, subst) {
                Some(e) => self.make_leaf(w, path, AbortsLeaf::PropHolds(e)),
                None => self.bundle_opaque_leaf(w, node, known, subst, path, true),
            },
        }
    }
}

/// The program with the bundle of a companion that states what is ensured, whose
/// body calls the segments that stand for parts of it.
pub open spec fn with_ensures_bundle(s: St, id: FunctionID, body: Node, q: Proof) -> Prog {
    let p = crate::decompose_aborts::callers_kept(
        s.p.with_body_of(id, crate::decompose_aborts::stood_in(body, s.replaced)),
        id,
        s.created,
    );
    Prog {
        ensures_bundles: p.ensures_bundles.push(
            Bundle {
                fn_id: id,
                obligations: q.kept(s.obs, s.obs.len()),
                proof: q.compacted(),
            },
        ),
        ..p
    }
}

/// The program with a companion split that states what is ensured, if it falls into
/// at least two obligations.
pub open spec fn ensures_split_one(p: Prog, id: FunctionID) -> Prog {
    let f = p.func(id);
    let w = crate::decompose_aborts::whole_of(f, Ty::Prop);
    let known = crate::decompose_aborts::params_known(f.signature.parameters);
    let (proof_, s) = shown_on(
        f.body,
        crate::decompose_aborts::begun(p),
        w,
        known,
        Seq::empty(),
        Seq::empty(),
        None,
        crate::coalesce::NESTING as nat,
    );
    match proof_ {
        Some(q) => if q.kept(s.obs, s.obs.len()).len() >= 2 {
            with_ensures_bundle(s, id, f.body, q)
        } else {
            s.p
        },
        None => s.p,
    }
}

/// Splits a companion that states what is ensured.
fn ensures_one(program: &mut Program, id: FunctionID)
    requires
        old(program)@.has(id),
    ensures
        final(program)@ == ensures_split_one(old(program)@, id),
{
    let ghost p = program@;
    let func = program.function(id);
    let w = parent_of(func, Type::Prop);
    let body = func.body.clone();
    let known = know_params(&func.signature.parameters);
    let ghost f = p.func(id);
    let mut session = begin(program);
    let subst: Vec<(TempId, Option<IRNode>)> = Vec::new();
    let path: Vec<(IRNode, bool)> = Vec::new();
    assert(subst_views(subst@) =~= Seq::empty());
    assert(path_views(path@) =~= Seq::empty());
    let proof_ = session.ensures_spine(
        &w,
        &body,
        known,
        subst,
        &path,
        None,
        crate::coalesce::NESTING,
    );
    let ghost s = session@;
    match proof_ {
        Some(q) => {
            assert(s.obs.len() == session.obs@.len());
            let kept = q.keep_used(&session.obs);
            assert(AbortsObligation::views(kept@).len() == kept@.len());
            if kept.len() >= 2 {
                let compact = q.remap_obs();
                let new_body = replace_parts(&body, &session.replaced);
                std::mem::swap(program, &mut session.program);
                program.put_body(id, new_body);
                keep_callers(program, id, &session.created);
                let ghost before = program@;
                let bundle = AbortsBundle { fn_id: id, obligations: kept, proof: compact };
                program.ensures_bundles.push(bundle);
                assert(program@.ensures_bundles =~= before.ensures_bundles.push(bundle@));
                assert(program@ =~= with_ensures_bundle(s, id, body@, q@));
                return ;
            }
        },
        None => {},
    }
    std::mem::swap(program, &mut session.program);
}

/// Whether the companion is to be split: it states what is ensured as a proposition,
/// and can be split.
pub open spec fn ensures_to_split(p: Prog, id: FunctionID) -> bool {
    p.has(id) && crate::decompose_aborts::splittable(p.func(id), id) && p.func(
        id,
    ).signature.return_type == Ty::Prop
}

/// The companions that state what is ensured.
pub open spec fn ensures_named(fs: Seq<(FunctionID, Func)>) -> Seq<FunctionID>
    decreases fs.len(),
{
    if fs.len() == 0 {
        Seq::empty()
    } else if ensures_name(fs.last().1.name) {
        ensures_named(fs.drop_last()).push(fs.last().0)
    } else {
        ensures_named(fs.drop_last())
    }
}

/// The program after the first `k` companions of a list were split.
pub open spec fn ensures_split_all(p: Prog, ids: Seq<FunctionID>) -> Prog
    decreases ids.len(),
{
    if ids.len() == 0 {
        p
    } else {
        let q = ensures_split_all(p, ids.drop_last());
        if ensures_to_split(q, ids.last()) {
            ensures_split_one(q, ids.last())
        } else {
            q
        }
    }
}

/// The program after its companions that state what is ensured were split.
pub open spec fn ensures_split(p: Prog) -> Prog {
    if crate::decompose_aborts::has_option(p.decls.module_options, "ensures_bundles"@) {
        ensures_split_all(p, ensures_named(p.functions))
    } else {
        p
    }
}

/// The companions that state what is ensured.
fn find_ensures(program: &Program) -> (r: Vec<FunctionID>)
    ensures
        r@ == ensures_named(program@.functions),
{
    let ghost fs = program@.functions;
    let mut out: Vec<FunctionID> = Vec::new();
    let mut i: usize = 0;
    assert(fs.subrange(0, 0) =~= Seq::empty());
    while i < program.functions.len()
        invariant
            i <= program.functions.len(),
            fs == program@.functions,
            out@ == ensures_named(fs.subrange(0, i as int)),
        decreases program.functions.len() - i,
    {
        let ghost next = fs.subrange(0, i + 1);
        assert(next.drop_last() =~= fs.subrange(0, i as int));
        assert(next.last() == (program.functions@[i as int].0, program.functions@[i as int].1@));
        if is_ensures_name(&program.functions[i].1.name) {
            out.push(program.functions[i].0);
        }
        i += 1;
    }
    assert(fs.subrange(0, i as int) =~= fs);
    out
}

/// Splits the companions of a program that state what is ensured, where a module
/// asks for it.
pub fn decompose_ensures(program: &mut Program)
    ensures
        final(program)@ == ensures_split(old(program)@),
{
    let ghost p = program@;
    if !ensures_bundles_enabled(program) {
        return ;
    }
    let ids = find_ensures(program);
    let mut i: usize = 0;
    assert(ids@.subrange(0, 0) =~= Seq::empty());
    while i < ids.len()
        invariant
            i <= ids.len(),
            program@ == ensures_split_all(p, ids@.subrange(0, i as int)),
        decreases ids.len() - i,
    {
        let ghost next = ids@.subrange(0, i + 1);
        assert(next.drop_last() =~= ids@.subrange(0, i as int));
        let id = ids[i];
        assert(next.last() == id);
        let fits = match program.function_slot(id) {
            Some(k) => {
                let f = &program.functions[k].1;
                assert(f@ == program@.func(id));
                let prop = match &f.signature.return_type {
                    Type::Prop => true,
                    _ => false,
                };
                is_splittable(f, id) && prop
            },
            None => false,
        };
        if fits {
            ensures_one(program, id);
        }
        i += 1;
    }
    assert(ids@.subrange(0, i as int) =~= ids@);
}

/// Without the option, nothing is split.
pub proof fn law_no_option_no_split(p: Prog)
    requires
        !crate::decompose_aborts::has_option(p.decls.module_options, "ensures_bundles"@),
    ensures
        ensures_split(p) == p,
{
}

} // verus!
