//! Splitting large abort companions into obligations or segments.
//!
//! The companion that states when a function aborts is walked check by check. Each
//! check becomes an obligation over the parameters, and a proof tells how the
//! obligations combine. What cannot be stated so becomes a segment, a function of
//! its own. Where no such bundle comes about, a long companion is cut into a chain
//! of segments.

use crate::bundles::{
    longer_path, path_views, AbortsBundle, AbortsLeaf, AbortsObligation, AbortsProofNode, Bundle,
    Claim, Obligation, Proof,
};
use crate::cut_types::{clone_known, known_views, put_known, register_pattern, try_type, Known};
use crate::ir::{IRNode, Node};
use crate::obligations::{
    bind_values, contains_abort_node, is_abort_propagation, is_some_abort, renderer_dep_if,
    shorten,
};
use crate::program::{
    Func, Function, Param, Parameter, Prog, Program, ProofParam, ProofParamType, PropText,
};
use crate::segments::{seg_call, Parent, Session, St, Whole};
use crate::sizes::approx_size;
use crate::substitution::{bundle_subst, clone_subst, optional_node, subst_views, Subst};
use crate::text::{ends_in, has_text};
use crate::traverse::{calls_function, contains_id};
use crate::types::{FunctionID, ModuleID, Name, TempId, Ty, Type};
use vstd::prelude::*;

verus! {

/// Whether a module of the list has the option.
pub open spec fn has_option(options: Seq<(ModuleID, Seq<Name>)>, name: Name) -> bool {
    exists|i: int| 0 <= i < options.len() && (#[trigger] options[i]).1.contains(name)
}

/// Whether a module of the program has the option.
pub fn option_enabled(program: &Program, name: &str) -> (r: bool)
    ensures
        r == has_option(program@.decls.module_options, name@),
{
    let options = &program.lean_termination_decls.module_options;
    let ghost all = program@.decls.module_options;
    let x: String = name.to_owned();
    let mut i: usize = 0;
    while i < options.len()
        invariant
            i <= options.len(),
            all == program@.decls.module_options,
            options@ == program.lean_termination_decls.module_options@,
            x@ == name@,
            forall|j: int| 0 <= j < i ==> !(#[trigger] all[j]).1.contains(name@),
        decreases options.len() - i,
    {
        assert(all[i as int].1 == crate::ir::names(options@[i as int].1@));
        if crate::traverse::contains_name(&options[i].1, &x) {
            return true;
        }
        i += 1;
    }
    assert(all.len() == options@.len());
    false
}

/// Whether bundles are the form of all abort companions: a module asks for it.
pub fn contract_aborts_enabled(program: &Program) -> (r: bool)
    ensures
        r == has_option(program@.decls.module_options, "contract_aborts"@),
{
    option_enabled(program, "contract_aborts")
}

/// Whether preconditions of callees become obligations: a module asks for it.
pub fn requires_leaves_enabled(program: &Program) -> (r: bool)
    ensures
        r == has_option(program@.decls.module_options, "requires_leaves"@),
{
    option_enabled(program, "requires_leaves")
}

/// Where the walk along an expression met the first variable that cannot be written
/// out: what was left of the expression, what was known, and how many checks lay
/// behind.
#[verifier::ext_equal]
pub struct Stuck {
    pub tail: Node,
    pub known: Known,
    pub subst: Subst,
    pub behind: nat,
}

/// The executable [`Stuck`].
pub struct Poison {
    pub tail: IRNode,
    pub known: Vec<(TempId, Option<Type>)>,
    pub subst: Vec<(TempId, Option<IRNode>)>,
    pub behind: usize,
}

impl Poison {
    /// What the record holds.
    pub open spec fn view(&self) -> Stuck {
        Stuck {
            tail: self.tail@,
            known: known_views(self.known@),
            subst: subst_views(self.subst@),
            behind: self.behind as nat,
        }
    }
}

/// What an optional record holds.
pub open spec fn optional_stuck(p: Option<Poison>) -> Option<Stuck> {
    match p {
        Some(x) => Some(x@),
        None => None,
    }
}

/// What a list of proofs holds.
pub open spec fn proof_views(s: Seq<AbortsProofNode>) -> Seq<Proof> {
    Seq::new(s.len(), |i: int| s[i]@)
}

/// The proofs of the checks before an expression, and its own.
pub open spec fn checks_joined(lefts: Seq<Proof>, last: Proof) -> Proof
    decreases lefts.len(),
{
    if lefts.len() == 0 {
        last
    } else {
        checks_joined(
            lefts.drop_last(),
            Proof::OrElse(Box::new(lefts.last()), Box::new(last)),
        )
    }
}

/// Joins the proofs of the checks before an expression with its own.
fn join_checks(lefts: Vec<AbortsProofNode>, last: AbortsProofNode) -> (r: AbortsProofNode)
    ensures
        r@ == checks_joined(proof_views(lefts@), last@),
{
    let ghost goal = checks_joined(proof_views(lefts@), last@);
    let mut rest = lefts;
    let mut cur = last;
    while rest.len() > 0
        invariant
            goal == checks_joined(proof_views(rest@), cur@),
        decreases rest.len(),
    {
        let ghost before = proof_views(rest@);
        match rest.pop() {
            Some(left) => {
                assert(before.last() == left@);
                assert(before.drop_last() =~= proof_views(rest@));
                cur = AbortsProofNode::OrElse(Box::new(left), Box::new(cur));
            },
            None => {},
        }
    }
    cur
}

/// Whether the expression goes on behind itself: a binding, or a check whose failure
/// is handed on.
pub open spec fn goes_on(n: Node) -> bool {
    match n {
        Node::Let { .. } => true,
        Node::MatchOption { binding, some_branch, .. } => crate::obligations::propagates(
            binding,
            *some_branch,
        ),
        _ => false,
    }
}

/// Whether the expression goes on behind itself.
fn is_going_on(n: &IRNode) -> (r: bool)
    ensures
        r == goes_on(n@),
{
    match n {
        IRNode::Let { .. } => true,
        IRNode::MatchOption { binding, some_branch, .. } => is_abort_propagation(
            binding,
            some_branch,
        ),
        _ => false,
    }
}

/// The values of the arguments before the last, if all are short enough to be
/// written out.
pub open spec fn short_args(args: Seq<Node>, subst: Subst) -> Option<Seq<Node>>
    decreases args.len(),
{
    if args.len() == 0 {
        Some(Seq::empty())
    } else {
        match short_args(args.drop_last(), subst) {
            Some(vs) => match crate::obligations::short_value(args.last(), subst, false) {
                Some(v) => Some(vs.push(v)),
                None => None,
            },
            None => None,
        }
    }
}

/// An argument that is too long leaves none.
proof fn lemma_short_none(args: Seq<Node>, subst: Subst, k: int)
    requires
        0 <= k <= args.len(),
        short_args(args.subrange(0, k), subst) is None,
    ensures
        short_args(args, subst) is None,
    decreases args.len(),
{
    if k == args.len() {
        assert(args.subrange(0, k) =~= args);
    } else {
        assert(args.drop_last().subrange(0, k) =~= args.subrange(0, k));
        lemma_short_none(args.drop_last(), subst, k);
    }
}

/// The values of the first `n` arguments, if all are short enough.
fn shorten_args(args: &Vec<IRNode>, n: usize, subst: &Vec<(TempId, Option<IRNode>)>) -> (r: Option<
    Vec<IRNode>,
>)
    requires
        n <= args@.len(),
    ensures
        crate::obligations::optional_nodes(r) == short_args(
            IRNode::views(args@).subrange(0, n as int),
            subst_views(subst@),
        ),
{
    let ghost all = IRNode::views(args@).subrange(0, n as int);
    let ghost sv = subst_views(subst@);
    let mut out: Vec<IRNode> = Vec::new();
    let mut i: usize = 0;
    assert(IRNode::views(out@) =~= Seq::empty());
    assert(all.subrange(0, 0) =~= Seq::empty());
    while i < n
        invariant
            i <= n,
            n <= args@.len(),
            all == IRNode::views(args@).subrange(0, n as int),
            sv == subst_views(subst@),
            Some(IRNode::views(out@)) == short_args(all.subrange(0, i as int), sv),
        decreases n - i,
    {
        let ghost next = all.subrange(0, i + 1);
        assert(next.drop_last() =~= all.subrange(0, i as int));
        assert(next.last() == args@[i as int]@);
        match shorten(&args[i], subst, false) {
            Some(v) => {
                let ghost before = IRNode::views(out@);
                out.push(v);
                assert(IRNode::views(out@) =~= before.push(v@));
            },
            None => {
                proof {
                    assert(short_args(next, sv) is None);
                    lemma_short_none(all, sv, i + 1);
                }
                return None;
            },
        }
        i += 1;
    }
    assert(all.subrange(0, i as int) =~= all);
    Some(out)
}

/// Whether a call is given an abort where the one proof of its precondition is due,
/// and this may become an obligation.
pub open spec fn asks_precondition(p: Prog, n: Node) -> bool {
    match n {
        Node::Call { function, args, .. } => {
            let f = p.func(function);
            &&& has_option(p.decls.module_options, "requires_leaves"@)
            &&& p.callee_requires_impls.contains(function)
            &&& p.has(function)
            &&& f.signature.proof_params.len() == 1
            &&& f.signature.proof_params[0].param_type is Verbatim
            &&& args.len() == f.signature.parameters.len() + 1
            &&& args.last() is Abort
        },
        _ => false,
    }
}

/// Whether a call is given an abort where the one proof of its precondition is due,
/// and this may become an obligation.
fn asks_for_precondition(program: &Program, node: &IRNode) -> (r: bool)
    ensures
        r == asks_precondition(program@, node@),
{
    match node {
        IRNode::Call { function, args, .. } => {
            assert(IRNode::views(args@).len() == args@.len());
            if !requires_leaves_enabled(program) || !contains_id(
                &program.callee_requires_impls,
                *function,
            ) {
                return false;
            }
            match program.function_slot(*function) {
                Some(k) => {
                    let sig = &program.functions[k].1.signature;
                    assert(sig@ == program@.func(*function).signature);
                    assert(sig@.proof_params.len() == sig.proof_params@.len());
                    assert(sig@.parameters.len() == sig.parameters@.len());
                    if sig.proof_params.len() != 1 || args.len() == 0 || args.len() - 1
                        != sig.parameters.len() {
                        return false;
                    }
                    assert(sig@.proof_params[0] == sig.proof_params@[0]@);
                    let verbatim = match &sig.proof_params[0].param_type {
                        ProofParamType::Verbatim(_) => true,
                        _ => false,
                    };
                    let last = &args[args.len() - 1];
                    assert(IRNode::views(args@).last() == last@);
                    let abort = match last {
                        IRNode::Abort { .. } => true,
                        _ => false,
                    };
                    verbatim && abort
                },
                None => false,
            }
        },
        _ => false,
    }
}

/// A proof that rests on one obligation.
pub open spec fn leaf_made(s: St, w: Whole, path: Seq<(Node, bool)>, claim: Claim) -> (
    Option<Proof>,
    St,
) {
    let (ob, s1) = crate::obligations::ob_made(s, w, path, claim);
    match ob {
        Some(i) => (Some(Proof::Leaf { ob: i }), s1),
        None => (None, s1),
    }
}

/// The proof for a call: nothing to show where the callee never aborts, the
/// precondition and the callee's own companion where a proof is due, and otherwise
/// that the call finds nothing.
pub open spec fn call_made(
    n: Node,
    s: St,
    w: Whole,
    known: Known,
    subst: Subst,
    path: Seq<(Node, bool)>,
) -> (Option<Proof>, St)
    recommends
        n is Call,
{
    let f = n->Call_function;
    let args = n->Call_args;
    if s.p.has(f) && !s.p.func(f).is_native && s.p.func(f).body is OptionNone {
        (Some(Proof::Rfl), s)
    } else if asks_precondition(s.p, n) {
        match short_args(args.drop_last(), subst) {
            Some(vs) => {
                let (req, s1) = crate::obligations::ob_made(
                    s,
                    w,
                    path,
                    Claim::RequiresHolds { callee: f, args: vs },
                );
                let (call, s2) = crate::obligations::ob_made(
                    s1,
                    w,
                    path,
                    Claim::CalleeNoneUnderRequires { callee: f, args: vs },
                );
                if req is Some && call is Some {
                    (Some(Proof::RequiresApp { req_ob: req->0, call_ob: call->0 }), s2)
                } else {
                    crate::obligations::opaque_made(s2, w, n, known, subst, path, false)
                }
            },
            None => crate::obligations::opaque_made(s, w, n, known, subst, path, false),
        }
    } else if crate::obligations::has_abort(n) {
        crate::obligations::opaque_made(s, w, n, known, subst, path, false)
    } else {
        match crate::substitution::substituted(n, subst) {
            Some(e) => leaf_made(s, w, path, Claim::OptionNone(e)),
            None => (None, s),
        }
    }
}

/// The proof of an expression that finds an abort or nothing; none where it cannot
/// be stated. Also where the cutting then stands.
pub open spec fn bundled(
    n: Node,
    s: St,
    w: Whole,
    known: Known,
    subst: Subst,
    path: Seq<(Node, bool)>,
) -> (Option<Proof>, St)
    decreases n, 2nat,
{
    if goes_on(n) {
        bundled_on(n, n, s, w, known, subst, path, Seq::empty(), None)
    } else {
        bundled_end(n, s, w, known, subst, path)
    }
}

/// The proof of what is left of an expression, behind the proofs of the checks
/// before it. What cannot be stated makes the rest one segment, from the first
/// variable on that cannot be written out.
pub open spec fn bundled_on(
    whole: Node,
    n: Node,
    s: St,
    w: Whole,
    known: Known,
    subst: Subst,
    path: Seq<(Node, bool)>,
    lefts: Seq<Proof>,
    stuck: Option<Stuck>,
) -> (Option<Proof>, St)
    decreases n, 1nat,
{
    if !goes_on(n) {
        let (proof_, s1) = bundled_end(n, s, w, known, subst, path);
        match proof_ {
            Some(q) => (Some(checks_joined(lefts, q)), s1),
            None => escalated(n, s1, w, known, subst, path, lefts, stuck),
        }
    } else {
        match n {
            Node::Let { pattern, value, body } => {
                let (subst1, bad) = crate::obligations::bound_values(
                    whole,
                    true,
                    s.p.world_functions,
                    pattern,
                    *value,
                    subst,
                );
                let stuck1 = if stuck is None && bad {
                    Some(Stuck { tail: n, known, subst, behind: lefts.len() })
                } else {
                    stuck
                };
                let known1 = crate::cut_types::behind(
                    known,
                    pattern,
                    crate::cut_types::told_type(*value, known, s.p),
                );
                bundled_on(whole, *body, s, w, known1, subst1, path, lefts, stuck1)
            },
            Node::MatchOption { scrutinee, none_branch, .. } => {
                let (proof_, s1) = bundled(*scrutinee, s, w, known, subst, path);
                match proof_ {
                    Some(q) => bundled_on(
                        whole,
                        *none_branch,
                        s1,
                        w,
                        known,
                        subst,
                        path,
                        lefts.push(q),
                        stuck,
                    ),
                    None => escalated(n, s1, w, known, subst, path, lefts, stuck),
                }
            },
            _ => (None, s),
        }
    }
}

/// The proof of the rest of an expression as one segment.
pub open spec fn escalated(
    n: Node,
    s: St,
    w: Whole,
    known: Known,
    subst: Subst,
    path: Seq<(Node, bool)>,
    lefts: Seq<Proof>,
    stuck: Option<Stuck>,
) -> (Option<Proof>, St) {
    let (proof_, s1) = match stuck {
        Some(k) => crate::obligations::opaque_made(
            s,
            w,
            k.tail,
            k.known,
            k.subst,
            path,
            false,
        ),
        None => crate::obligations::opaque_made(s, w, n, known, subst, path, false),
    };
    let kept = match stuck {
        Some(k) => if k.behind <= lefts.len() {
            lefts.subrange(0, k.behind as int)
        } else {
            lefts
        },
        None => lefts,
    };
    match proof_ {
        Some(q) => (Some(checks_joined(kept, q)), s1),
        None => (None, s1),
    }
}

/// The proof of an expression that does not go on behind itself.
pub open spec fn bundled_end(
    n: Node,
    s: St,
    w: Whole,
    known: Known,
    subst: Subst,
    path: Seq<(Node, bool)>,
) -> (Option<Proof>, St)
    decreases n, 0nat,
{
    match n {
        Node::OptionNone => (Some(Proof::Rfl), s),
        Node::If { cond, then_branch, else_branch } => {
            let sc = crate::substitution::substituted(*cond, subst);
            let dependent = crate::obligations::is_dependent(s.p, *then_branch, *else_branch);
            if (dependent && sc is None) || (!dependent && crate::obligations::has_abort(n)) {
                crate::obligations::opaque_made(s, w, n, known, subst, path, false)
            } else if sc is None {
                (None, s)
            } else if !dependent && crate::obligations::ends_in_some(*then_branch) {
                let (ob, s1) = crate::obligations::ob_made(
                    s,
                    w,
                    path,
                    Claim::GuardFalse(sc->0),
                );
                match ob {
                    Some(i) => {
                        let (rest, s2) = bundled(*else_branch, s1, w, known, subst, path);
                        match rest {
                            Some(q) => (
                                Some(Proof::GuardFalse { ob: i, rest: Box::new(q) }),
                                s2,
                            ),
                            None => (None, s2),
                        }
                    },
                    None => (None, s1),
                }
            } else if !dependent && crate::obligations::ends_in_some(*else_branch) {
                let (ob, s1) = crate::obligations::ob_made(s, w, path, Claim::GuardTrue(sc->0));
                match ob {
                    Some(i) => {
                        let (rest, s2) = bundled(*then_branch, s1, w, known, subst, path);
                        match rest {
                            Some(q) => (
                                Some(Proof::GuardTrue { ob: i, rest: Box::new(q) }),
                                s2,
                            ),
                            None => (None, s2),
                        }
                    },
                    None => (None, s1),
                }
            } else {
                let (t, s1) = bundled(
                    *then_branch,
                    s,
                    w,
                    known,
                    subst,
                    path.push((sc->0, true)),
                );
                match t {
                    Some(a) => {
                        let (e, s2) = bundled(
                            *else_branch,
                            s1,
                            w,
                            known,
                            subst,
                            path.push((sc->0, false)),
                        );
                        match e {
                            Some(b) => (
                                Some(
                                    if dependent {
                                        Proof::DIte(Box::new(a), Box::new(b))
                                    } else {
                                        Proof::BIte(Box::new(a), Box::new(b))
                                    },
                                ),
                                s2,
                            ),
                            None => (None, s2),
                        }
                    },
                    None => (None, s1),
                }
            }
        },
        Node::Call { .. } => call_made(n, s, w, known, subst, path),
        Node::Var(_) => match crate::substitution::substituted(n, subst) {
            Some(e) => if e is OptionNone {
                (Some(Proof::Rfl), s)
            } else {
                leaf_made(s, w, path, Claim::OptionNone(e))
            },
            None => (None, s),
        },
        _ => crate::obligations::opaque_made(s, w, n, known, subst, path, false),
    }
}

impl Session {
    /// Lets a proof rest on one obligation.
    pub fn make_leaf(&mut self, w: &Parent, path: &Vec<(IRNode, bool)>, leaf: AbortsLeaf) -> (r: Option<
        AbortsProofNode,
    >)
        ensures
            (crate::bundles::optional_proof(r), final(self)@) == leaf_made(
                old(self)@,
                w@,
                path_views(path@),
                leaf@,
            ),
    {
        match self.add_obligation(w, path, leaf) {
            Some(i) => Some(AbortsProofNode::Leaf { ob: i }),
            None => None,
        }
    }

    /// Finds the proof for a call.
    fn bundle_call(
        &mut self,
        w: &Parent,
        node: &IRNode,
        known: &Vec<(TempId, Option<Type>)>,
        subst: &Vec<(TempId, Option<IRNode>)>,
        path: &Vec<(IRNode, bool)>,
    ) -> (r: Option<AbortsProofNode>)
        requires
            node@ is Call,
        ensures
            (crate::bundles::optional_proof(r), final(self)@) == call_made(
                node@,
                old(self)@,
                w@,
                known_views(known@),
                subst_views(subst@),
                path_views(path@),
            ),
    {
        let ghost s = self@;
        match node {
            IRNode::Call { function, args, .. } => {
                let ghost av = IRNode::views(args@);
                assert(av.len() == args@.len());
                let total = match self.program.function_slot(*function) {
                    Some(k) => {
                        let f = &self.program.functions[k].1;
                        assert(f@ == s.p.func(*function));
                        let empty = match &f.body {
                            IRNode::OptionNone => true,
                            _ => false,
                        };
                        !f.is_native && empty
                    },
                    None => false,
                };
                if total {
                    return Some(AbortsProofNode::Rfl);
                }
                if asks_for_precondition(&self.program, node) {
                    let n: usize = args.len() - 1;
                    assert(av.subrange(0, n as int) =~= av.drop_last());
                    match shorten_args(args, n, subst) {
                        Some(vs) => {
                            let ghost vv = IRNode::views(vs@);
                            let more = crate::inject_arithmetic_aborts::clone_nodes(&vs);
                            let req = self.add_obligation(
                                w,
                                path,
                                AbortsLeaf::RequiresHolds { callee: *function, args: vs },
                            );
                            let call = self.add_obligation(
                                w,
                                path,
                                AbortsLeaf::CalleeNoneUnderRequires {
                                    callee: *function,
                                    args: more,
                                },
                            );
                            match (req, call) {
                                (Some(a), Some(b)) => {
                                    return Some(
                                        AbortsProofNode::RequiresApp { req_ob: a, call_ob: b },
                                    );
                                },
                                _ => {},
                            }
                        },
                        None => {},
                    }
                    return self.bundle_opaque_leaf(w, node, known, subst, path, false);
                }
                if contains_abort_node(node) {
                    return self.bundle_opaque_leaf(w, node, known, subst, path, false);
                }
                match bundle_subst(node, subst) {
                    Some(e) => self.make_leaf(w, path, AbortsLeaf::OptionNone(e)),
                    None => None,
                }
            },
            _ => None,
        }
    }

    /// Makes the rest of an expression one segment.
    fn escalate(
        &mut self,
        w: &Parent,
        node: &IRNode,
        known: &Vec<(TempId, Option<Type>)>,
        subst: &Vec<(TempId, Option<IRNode>)>,
        path: &Vec<(IRNode, bool)>,
        lefts: Vec<AbortsProofNode>,
        stuck: Option<Poison>,
    ) -> (r: Option<AbortsProofNode>)
        ensures
            (crate::bundles::optional_proof(r), final(self)@) == escalated(
                node@,
                old(self)@,
                w@,
                known_views(known@),
                subst_views(subst@),
                path_views(path@),
                proof_views(lefts@),
                optional_stuck(stuck),
            ),
    {
        let ghost lv = proof_views(lefts@);
        assert(lv.len() == lefts@.len());
        let mut kept = lefts;
        let proof_ = match stuck {
            Some(k) => {
                if k.behind <= kept.len() {
                    kept.truncate(k.behind);
                    assert(proof_views(kept@) =~= lv.subrange(0, k.behind as int));
                }
                self.bundle_opaque_leaf(w, &k.tail, &k.known, &k.subst, path, false)
            },
            None => self.bundle_opaque_leaf(w, node, known, subst, path, false),
        };
        match proof_ {
            Some(q) => Some(join_checks(kept, q)),
            None => None,
        }
    }

    /// Finds the proof of an expression that finds an abort or nothing.
    fn bundle_expr(
        &mut self,
        w: &Parent,
        node: &IRNode,
        known: &Vec<(TempId, Option<Type>)>,
        subst: &Vec<(TempId, Option<IRNode>)>,
        path: &Vec<(IRNode, bool)>,
    ) -> (r: Option<AbortsProofNode>)
        ensures
            (crate::bundles::optional_proof(r), final(self)@) == bundled(
                node@,
                old(self)@,
                w@,
                known_views(known@),
                subst_views(subst@),
                path_views(path@),
            ),
        decreases node, 2nat,
    {
        if is_going_on(node) {
            let lefts: Vec<AbortsProofNode> = Vec::new();
            assert(proof_views(lefts@) =~= Seq::empty());
            self.bundle_spine(
                w,
                node,
                node,
                clone_known(known),
                clone_subst(subst),
                path,
                lefts,
                None,
            )
        } else {
            self.bundle_end(w, node, known, subst, path)
        }
    }

    /// Finds the proof of what is left of an expression.
    fn bundle_spine(
        &mut self,
        w: &Parent,
        whole: &IRNode,
        node: &IRNode,
        known: Vec<(TempId, Option<Type>)>,
        subst: Vec<(TempId, Option<IRNode>)>,
        path: &Vec<(IRNode, bool)>,
        lefts: Vec<AbortsProofNode>,
        stuck: Option<Poison>,
    ) -> (r: Option<AbortsProofNode>)
        ensures
            (crate::bundles::optional_proof(r), final(self)@) == bundled_on(
                whole@,
                node@,
                old(self)@,
                w@,
                known_views(known@),
                subst_views(subst@),
                path_views(path@),
                proof_views(lefts@),
                optional_stuck(stuck),
            ),
        decreases node, 1nat,
    {
        if !is_going_on(node) {
            return match self.bundle_end(w, node, &known, &subst, path) {
                Some(q) => Some(join_checks(lefts, q)),
                None => self.escalate(w, node, &known, &subst, path, lefts, stuck),
            };
        }
        match node {
            IRNode::Let { pattern, value, body } => {
                let mut subst1 = clone_subst(&subst);
                let bad = bind_values(
                    whole,
                    true,
                    &self.program.world_functions,
                    pattern,
                    value,
                    &mut subst1,
                );
                let t = try_type(value, &known, &self.program);
                let mut known1 = clone_known(&known);
                register_pattern(&mut known1, pattern, &t);
                let ghost lv = proof_views(lefts@);
                assert(lv.len() == lefts@.len());
                let stuck1 = if stuck.is_none() && bad {
                    Some(Poison { tail: node.clone(), known, subst, behind: lefts.len() })
                } else {
                    stuck
                };
                self.bundle_spine(w, whole, body, known1, subst1, path, lefts, stuck1)
            },
            IRNode::MatchOption { scrutinee, none_branch, .. } => {
                match self.bundle_expr(w, scrutinee, &known, &subst, path) {
                    Some(q) => {
                        let ghost lv = proof_views(lefts@);
                        let mut more = lefts;
                        more.push(q);
                        assert(proof_views(more@) =~= lv.push(q@));
                        self.bundle_spine(w, whole, none_branch, known, subst, path, more, stuck)
                    },
                    None => self.escalate(w, node, &known, &subst, path, lefts, stuck),
                }
            },
            _ => None,
        }
    }

    /// Finds the proof of an expression that does not go on behind itself.
    #[verifier::rlimit(50)]
    fn bundle_end(
        &mut self,
        w: &Parent,
        node: &IRNode,
        known: &Vec<(TempId, Option<Type>)>,
        subst: &Vec<(TempId, Option<IRNode>)>,
        path: &Vec<(IRNode, bool)>,
    ) -> (r: Option<AbortsProofNode>)
        ensures
            (crate::bundles::optional_proof(r), final(self)@) == bundled_end(
                node@,
                old(self)@,
                w@,
                known_views(known@),
                subst_views(subst@),
                path_views(path@),
            ),
        decreases node, 0nat,
    {
        match node {
            IRNode::OptionNone => Some(AbortsProofNode::Rfl),
            IRNode::If { cond, then_branch, else_branch } => {
                let dependent = renderer_dep_if(&self.program, then_branch, else_branch);
                let sc = bundle_subst(cond, subst);
                if (dependent && sc.is_none()) || (!dependent && contains_abort_node(node)) {
                    return self.bundle_opaque_leaf(w, node, known, subst, path, false);
                }
                let c = match sc {
                    Some(c) => c,
                    None => {
                        return None;
                    },
                };
                if !dependent && is_some_abort(then_branch) {
                    let ob = self.add_obligation(w, path, AbortsLeaf::GuardFalse(c));
                    return match ob {
                        Some(i) => match self.bundle_expr(w, else_branch, known, subst, path) {
                            Some(q) => Some(
                                AbortsProofNode::GuardFalse { ob: i, rest: Box::new(q) },
                            ),
                            None => None,
                        },
                        None => None,
                    };
                }
                if !dependent && is_some_abort(else_branch) {
                    let ob = self.add_obligation(w, path, AbortsLeaf::GuardTrue(c));
                    return match ob {
                        Some(i) => match self.bundle_expr(w, then_branch, known, subst, path) {
                            Some(q) => Some(
                                AbortsProofNode::GuardTrue { ob: i, rest: Box::new(q) },
                            ),
                            None => None,
                        },
                        None => None,
                    };
                }
                let on_true = longer_path(path, &c, true);
                let on_false = longer_path(path, &c, false);
                match self.bundle_expr(w, then_branch, known, subst, &on_true) {
                    Some(a) => match self.bundle_expr(w, else_branch, known, subst, &on_false) {
                        Some(b) => if dependent {
                            Some(AbortsProofNode::DIte(Box::new(a), Box::new(b)))
                        } else {
                            Some(AbortsProofNode::BIte(Box::new(a), Box::new(b)))
                        },
                        None => None,
                    },
                    None => None,
                }
            },
            IRNode::Call { .. } => self.bundle_call(w, node, known, subst, path),
            IRNode::Var(_) => match bundle_subst(node, subst) {
                Some(e) => {
                    let nothing = match &e {
                        IRNode::OptionNone => true,
                        _ => false,
                    };
                    if nothing {
                        Some(AbortsProofNode::Rfl)
                    } else {
                        self.make_leaf(w, path, AbortsLeaf::OptionNone(e))
                    }
                },
                None => None,
            },
            _ => self.bundle_opaque_leaf(w, node, known, subst, path, false),
        }
    }
}

/// What a segment stands for in place of an expression, if it does.
pub open spec fn stand_in(replaced: Seq<(Node, Node)>, n: Node) -> Option<Node>
    decreases replaced.len(),
{
    if replaced.len() == 0 {
        None
    } else {
        match stand_in(replaced.drop_last(), n) {
            Some(c) => Some(c),
            None => if replaced.last().0 == n {
                Some(replaced.last().1)
            } else {
                None
            },
        }
    }
}

/// The expression with segments in the place of the parts that they stand for, the
/// outer before the inner.
pub open spec fn stood_in(n: Node, replaced: Seq<(Node, Node)>) -> Node
    decreases n, 1nat,
{
    match stand_in(replaced, n) {
        Some(c) => c,
        None => n.with_kids(stood_in_kids(n, replaced)),
    }
}

/// The direct subexpressions with segments in the place of parts.
pub open spec fn stood_in_kids(n: Node, replaced: Seq<(Node, Node)>) -> Seq<Node>
    decreases n, 0nat,
{
    proof {
        n.lemma_kids_decrease();
    }
    Seq::new(
        n.kids().len(),
        |i: int|
            if 0 <= i < n.kids().len() {
                stood_in(n.kids()[i], replaced)
            } else {
                arbitrary()
            },
    )
}

/// What a segment stands for in place of an expression, if it does.
fn find_stand_in(replaced: &Vec<(IRNode, IRNode)>, node: &IRNode) -> (r: Option<IRNode>)
    ensures
        optional_node(r) == stand_in(crate::segments::pair_views(replaced@), node@),
{
    let ghost all = crate::segments::pair_views(replaced@);
    let mut hit: Option<IRNode> = None;
    let mut i: usize = 0;
    assert(all.subrange(0, 0) =~= Seq::empty());
    while i < replaced.len()
        invariant
            i <= replaced.len(),
            all == crate::segments::pair_views(replaced@),
            optional_node(hit) == stand_in(all.subrange(0, i as int), node@),
        decreases replaced.len() - i,
    {
        let ghost next = all.subrange(0, i + 1);
        assert(next.drop_last() =~= all.subrange(0, i as int));
        assert(next.last() == (replaced@[i as int].0@, replaced@[i as int].1@));
        if hit.is_none() && replaced[i].0.same(node) {
            hit = Some(replaced[i].1.clone());
        }
        i += 1;
    }
    assert(all.subrange(0, i as int) =~= all);
    hit
}

/// Puts segments in the place of the parts that they stand for.
pub fn replace_parts(node: &IRNode, replaced: &Vec<(IRNode, IRNode)>) -> (r: IRNode)
    ensures
        r@ == stood_in(node@, crate::segments::pair_views(replaced@)),
    decreases node@,
{
    let ghost rv = crate::segments::pair_views(replaced@);
    match find_stand_in(replaced, node) {
        Some(c) => {
            return c;
        },
        None => {},
    }
    let ks = node.children();
    let mut out: Vec<IRNode> = Vec::new();
    let mut i: usize = 0;
    proof {
        node@.lemma_kids_decrease();
    }
    while i < ks.len()
        invariant
            i <= ks.len(),
            out@.len() == i,
            rv == crate::segments::pair_views(replaced@),
            ks@.len() == node@.kids().len(),
            forall|j: int| 0 <= j < ks@.len() ==> (#[trigger] ks@[j])@ == node@.kids()[j],
            forall|j: int| 0 <= j < i ==> (#[trigger] out@[j])@ == stood_in(node@.kids()[j], rv),
            forall|j: int| 0 <= j < node@.kids().len() ==> decreases_to!(
                node@ => #[trigger] node@.kids()[j]
            ),
        decreases ks.len() - i,
    {
        assert(ks@[i as int]@ == node@.kids()[i as int]);
        out.push(replace_parts(ks[i], replaced));
        i += 1;
    }
    assert(IRNode::views(out@) =~= stood_in_kids(node@, rv));
    node.with_children(out)
}

/// The parameters in scope.
pub open spec fn params_known(ps: Seq<Param>) -> Known
    decreases ps.len(),
{
    if ps.len() == 0 {
        Seq::empty()
    } else {
        crate::assoc::put(
            params_known(ps.drop_last()),
            ps.last().ssa_value,
            Some(ps.last().param_type),
        )
    }
}

/// The parameters in scope.
pub fn know_params(ps: &Vec<Parameter>) -> (r: Vec<(TempId, Option<Type>)>)
    ensures
        known_views(r@) == params_known(Parameter::views(ps@)),
{
    let ghost all = Parameter::views(ps@);
    let mut out: Vec<(TempId, Option<Type>)> = Vec::new();
    let mut i: usize = 0;
    assert(known_views(out@) =~= Seq::empty());
    assert(all.subrange(0, 0) =~= Seq::empty());
    while i < ps.len()
        invariant
            i <= ps.len(),
            all == Parameter::views(ps@),
            known_views(out@) == params_known(all.subrange(0, i as int)),
        decreases ps.len() - i,
    {
        let ghost next = all.subrange(0, i + 1);
        assert(next.drop_last() =~= all.subrange(0, i as int));
        assert(next.last() == ps@[i as int]@);
        put_known(&mut out, &ps[i].ssa_value, Some(ps[i].param_type.clone()));
        i += 1;
    }
    assert(all.subrange(0, i as int) =~= all);
    out
}

/// The function that is cut apart, with what its segments return.
pub open spec fn whole_of(f: Func, return_type: Ty) -> Whole {
    Whole {
        name: f.name,
        module_id: f.module_id,
        return_type,
        params: f.signature.parameters,
        proof_params: f.signature.proof_params,
    }
}

/// A copy of a list of proof parameters.
fn clone_proofs(hs: &Vec<ProofParam>) -> (r: Vec<ProofParam>)
    ensures
        ProofParam::views(r@) == ProofParam::views(hs@),
{
    let mut out: Vec<ProofParam> = Vec::new();
    let mut i: usize = 0;
    while i < hs.len()
        invariant
            i <= hs.len(),
            out@.len() == i,
            forall|j: int| 0 <= j < i ==> (#[trigger] out@[j])@ == hs@[j]@,
        decreases hs.len() - i,
    {
        let h = hs[i].clone();
        out.push(h);
        i += 1;
    }
    assert(ProofParam::views(out@) =~= ProofParam::views(hs@));
    out
}

/// The function that is cut apart, with what its segments return.
pub fn parent_of(f: &Function, return_type: Type) -> (r: Parent)
    ensures
        r@ == whole_of(f@, return_type@),
{
    Parent {
        name: f.name.clone(),
        module_id: f.module_id,
        return_type,
        params: crate::program::clone_params(&f.signature.parameters),
        proof_params: clone_proofs(&f.signature.proof_params),
    }
}

/// The numbers, with more of them, those that are not there.
pub open spec fn with_ids(s: Seq<FunctionID>, more: Seq<FunctionID>) -> Seq<FunctionID>
    decreases more.len(),
{
    if more.len() == 0 {
        s
    } else {
        let before = with_ids(s, more.drop_last());
        if before.contains(more.last()) {
            before
        } else {
            before.push(more.last())
        }
    }
}

/// The program in which the segments of a function call as the function does.
pub open spec fn callers_kept(p: Prog, id: FunctionID, created: Seq<FunctionID>) -> Prog {
    if p.callee_requires_precond_callers.contains(id) {
        Prog {
            callee_requires_precond_callers: with_ids(
                p.callee_requires_precond_callers,
                created,
            ),
            ..p
        }
    } else {
        p
    }
}

/// Lets the segments of a function call as the function does.
pub fn keep_callers(program: &mut Program, id: FunctionID, created: &Vec<FunctionID>)
    ensures
        final(program)@ == callers_kept(old(program)@, id, created@),
{
    let ghost p = program@;
    if !contains_id(&program.callee_requires_precond_callers, id) {
        return ;
    }
    let ghost start = p.callee_requires_precond_callers;
    let mut i: usize = 0;
    assert(created@.subrange(0, 0) =~= Seq::empty());
    while i < created.len()
        invariant
            i <= created.len(),
            start == p.callee_requires_precond_callers,
            program@ == (Prog {
                callee_requires_precond_callers: with_ids(
                    start,
                    created@.subrange(0, i as int),
                ),
                ..p
            }),
        decreases created.len() - i,
    {
        let ghost next = created@.subrange(0, i + 1);
        assert(next.drop_last() =~= created@.subrange(0, i as int));
        assert(next.last() == created@[i as int]);
        let ghost before = program@;
        if !contains_id(&program.callee_requires_precond_callers, created[i]) {
            program.callee_requires_precond_callers.push(created[i]);
        }
        assert(program@ =~= (Prog {
            callee_requires_precond_callers: with_ids(start, next),
            ..p
        }));
        i += 1;
    }
    assert(created@.subrange(0, i as int) =~= created@);
}

/// Where the cutting begins.
pub open spec fn begun(p: Prog) -> St {
    St {
        p,
        created: Seq::empty(),
        atoms: Seq::empty(),
        replaced: Seq::empty(),
        obs: Seq::empty(),
    }
}

/// Whether a bundle is one obligation that a segment just made finds nothing.
pub open spec fn no_progress(obs: Seq<Obligation>, q: Proof, created: Seq<FunctionID>) -> bool {
    obs.len() == 1 && q is Leaf && match obs[0].leaf {
        Claim::OptionNone(e) => match e {
            Node::Call { function, .. } => created.contains(function),
            _ => false,
        },
        _ => false,
    }
}

/// Whether a bundle is one obligation that a segment just made finds nothing.
fn makes_no_progress(
    obs: &Vec<AbortsObligation>,
    q: &AbortsProofNode,
    created: &Vec<FunctionID>,
) -> (r: bool)
    ensures
        r == no_progress(AbortsObligation::views(obs@), q@, created@),
{
    assert(AbortsObligation::views(obs@).len() == obs@.len());
    if obs.len() != 1 {
        return false;
    }
    assert(AbortsObligation::views(obs@)[0] == obs@[0]@);
    match q {
        AbortsProofNode::Leaf { .. } => match &obs[0].leaf {
            AbortsLeaf::OptionNone(e) => match e {
                IRNode::Call { function, .. } => contains_id(created, *function),
                _ => false,
            },
            _ => false,
        },
        _ => false,
    }
}

/// The program with the bundle of a function, whose body calls the segments that
/// stand for parts of it.
pub open spec fn with_bundle(s: St, id: FunctionID, body: Node, q: Proof) -> Prog {
    let p = callers_kept(s.p.with_body_of(id, stood_in(body, s.replaced)), id, s.created);
    Prog {
        aborts_bundles: p.aborts_bundles.push(
            Bundle {
                fn_id: id,
                obligations: q.kept(s.obs, s.obs.len()),
                proof: q.compacted(),
            },
        ),
        ..p
    }
}

/// The program with a function that calls the first segment of its body.
pub open spec fn with_segments(s: St, id: FunctionID, top: FunctionID) -> Prog {
    let p = callers_kept(
        s.p.with_body_of(id, crate::segments::segment_call(s.p, top)),
        id,
        s.created,
    );
    Prog { aborts_decompositions: p.aborts_decompositions.push((id, top)), ..p }
}

/// The program with an abort companion split, and the segments that are to be split
/// in turn. A small companion gets a bundle of at least two obligations or of none,
/// or stays; a large one without a bundle is cut into segments, unless it is a
/// segment itself.
pub open spec fn split_one(p: Prog, id: FunctionID, small: bool) -> (Prog, Seq<FunctionID>) {
    let f = p.func(id);
    let w = whole_of(f, f.signature.return_type);
    let known = params_known(f.signature.parameters);
    let (body, s1) = crate::segments::hoisted(f.body, begun(p), w, known, Seq::empty());
    let (proof_, s2) = bundled_on(
        body,
        body,
        s1,
        w,
        known,
        Seq::empty(),
        Seq::empty(),
        Seq::empty(),
        None,
    );
    let accepted = match proof_ {
        Some(q) => {
            let obs = q.kept(s2.obs, s2.obs.len());
            !no_progress(obs, q.compacted(), s2.created) && !(small && obs.len() == 1)
        },
        None => false,
    };
    if accepted {
        (with_bundle(s2, id, body, proof_->0), s2.created)
    } else if small || crate::text::occurs(f.name, ".seg_"@) {
        (s2.p, Seq::empty())
    } else {
        let (top, s3) = crate::spine_cuts::segmented(body, s2, w, known);
        match top {
            Some(t) => (with_segments(s3, id, t), Seq::empty()),
            None => (s3.p, Seq::empty()),
        }
    }
}

/// Begins to cut: takes the program over.
pub fn begin(program: &mut Program) -> (r: Session)
    ensures
        r@ == begun(old(program)@),
{
    let mut taken = Program::empty();
    std::mem::swap(program, &mut taken);
    let r = Session {
        program: taken,
        created: Vec::new(),
        atoms: Vec::new(),
        replaced: Vec::new(),
        obs: Vec::new(),
    };
    assert(r@ =~= begun(taken@)) by {
        assert(r@.created =~= Seq::empty());
        assert(r@.atoms =~= Seq::empty());
        assert(r@.replaced =~= Seq::empty());
        assert(r@.obs =~= Seq::empty());
    }
    r
}

/// Splits an abort companion, and gives the segments that are to be split in turn.
fn decompose_one(program: &mut Program, id: FunctionID, small: bool) -> (r: Vec<FunctionID>)
    requires
        old(program)@.has(id),
    ensures
        (final(program)@, r@) == split_one(old(program)@, id, small),
{
    let ghost p = program@;
    let func = program.function(id);
    let w = parent_of(func, func.signature.return_type.clone());
    let own_body = func.body.clone();
    let is_segment = has_text(&func.name, ".seg_");
    let known = know_params(&func.signature.parameters);
    let ghost f = p.func(id);
    assert(w@ == whole_of(f, f.signature.return_type));
    let mut session = begin(program);
    let body = session.hoist_atoms(&w, &own_body, &known);
    let ghost s1 = session@;
    let subst: Vec<(TempId, Option<IRNode>)> = Vec::new();
    let path: Vec<(IRNode, bool)> = Vec::new();
    let lefts: Vec<AbortsProofNode> = Vec::new();
    assert(subst_views(subst@) =~= Seq::empty());
    assert(path_views(path@) =~= Seq::empty());
    assert(proof_views(lefts@) =~= Seq::empty());
    let proof_ = session.bundle_spine(
        &w,
        &body,
        &body,
        clone_known(&known),
        subst,
        &path,
        lefts,
        None,
    );
    let ghost s2 = session@;
    match proof_ {
        Some(q) => {
            assert(s2.obs.len() == session.obs@.len());
            let kept = q.keep_used(&session.obs);
            let compact = q.remap_obs();
            let stale = makes_no_progress(&kept, &compact, &session.created) || (small
                && kept.len() == 1);
            assert(AbortsObligation::views(kept@).len() == kept@.len());
            if !stale {
                let new_body = replace_parts(&body, &session.replaced);
                std::mem::swap(program, &mut session.program);
                program.put_body(id, new_body);
                keep_callers(program, id, &session.created);
                let ghost before = program@;
                let bundle = AbortsBundle { fn_id: id, obligations: kept, proof: compact };
                program.aborts_bundles.push(bundle);
                assert(program@.aborts_bundles =~= before.aborts_bundles.push(bundle@));
                assert(program@ =~= with_bundle(s2, id, body@, q@));
                return session.created;
            }
            if small || is_segment {
                std::mem::swap(program, &mut session.program);
                return Vec::new();
            }
        },
        None => {
            if small || is_segment {
                std::mem::swap(program, &mut session.program);
                return Vec::new();
            }
        },
    }
    let top = session.segment_spine(&w, &body, &known);
    std::mem::swap(program, &mut session.program);
    match top {
        Some(t) => {
            let call = seg_call(program, t);
            program.put_body(id, call);
            keep_callers(program, id, &session.created);
            let ghost before = program@;
            program.aborts_decompositions.push((id, t));
            assert(program@ =~= (Prog {
                aborts_decompositions: before.aborts_decompositions.push((id, t)),
                ..before
            }));
        },
        None => {},
    }
    Vec::new()
}

/// From this length on a companion is split in any case.
pub const MIN_TOTAL: usize = 25000;

/// Whether the type is that of a reference.
pub open spec fn is_reference_type(t: Ty) -> bool {
    t is MutableReference || t is Reference
}

/// Whether the proof parameter can be copied to segments as it is.
pub open spec fn is_portable(t: PropText) -> bool {
    t is Verbatim || t is DataInvWorld
}

/// Whether the companion can be split: it is an ordinary function without type
/// parameters that does not call itself, whose parameters are values and whose proof
/// parameters can be copied.
pub open spec fn splittable(f: Func, id: FunctionID) -> bool {
    &&& !f.is_native
    &&& f.theorem is None
    &&& f.mutual_group_id is None
    &&& f.signature.type_params.len() == 0
    &&& !f.body.calls(id)
    &&& forall|i: int|
        0 <= i < f.signature.parameters.len() ==> !is_reference_type(
            (#[trigger] f.signature.parameters[i]).param_type,
        )
    &&& forall|i: int|
        0 <= i < f.signature.proof_params.len() ==> is_portable(
            (#[trigger] f.signature.proof_params[i]).param_type,
        )
}

/// Whether a parameter is a reference.
fn takes_reference(ps: &Vec<Parameter>) -> (r: bool)
    ensures
        r == exists|i: int|
            0 <= i < ps@.len() && is_reference_type(
                (#[trigger] Parameter::views(ps@)[i]).param_type,
            ),
{
    let ghost all = Parameter::views(ps@);
    let mut i: usize = 0;
    while i < ps.len()
        invariant
            i <= ps.len(),
            all == Parameter::views(ps@),
            forall|j: int| 0 <= j < i ==> !is_reference_type((#[trigger] all[j]).param_type),
        decreases ps.len() - i,
    {
        assert(all[i as int] == ps@[i as int]@);
        match &ps[i].param_type {
            Type::MutableReference(_, _) => {
                return true;
            },
            Type::Reference(_) => {
                return true;
            },
            _ => {},
        }
        i += 1;
    }
    false
}

/// Whether all proof parameters can be copied to segments as they are.
fn all_portable(hs: &Vec<ProofParam>) -> (r: bool)
    ensures
        r == forall|i: int|
            0 <= i < hs@.len() ==> is_portable((#[trigger] ProofParam::views(hs@)[i]).param_type),
{
    let ghost all = ProofParam::views(hs@);
    let mut i: usize = 0;
    while i < hs.len()
        invariant
            i <= hs.len(),
            all == ProofParam::views(hs@),
            forall|j: int| 0 <= j < i ==> is_portable((#[trigger] all[j]).param_type),
        decreases hs.len() - i,
    {
        assert(all[i as int] == hs@[i as int]@);
        match &hs[i].param_type {
            ProofParamType::DataInv { .. } => {
                assert(!is_portable(all[i as int].param_type));
                return false;
            },
            _ => {},
        }
        i += 1;
    }
    true
}

/// Whether the companion can be split.
pub fn is_splittable(f: &Function, id: FunctionID) -> (r: bool)
    ensures
        r == splittable(f@, id),
{
    assert(f@.signature.type_params.len() == f.signature.type_params@.len());
    assert(f@.signature.parameters.len() == f.signature.parameters@.len());
    assert(f@.signature.proof_params.len() == f.signature.proof_params@.len());
    !f.is_native && f.theorem.is_none() && f.mutual_group_id.is_none()
        && f.signature.type_params.len() == 0 && !calls_function(&f.body, id) && !takes_reference(
        &f.signature.parameters,
    ) && all_portable(&f.signature.proof_params)
}

/// Whether the abort companion is to be split: it can be, it may abort, and it is
/// long, or all companions get bundles.
pub open spec fn to_split(p: Prog, id: FunctionID, all: bool) -> bool {
    p.has(id) && splittable(p.func(id), id) && !(p.func(id).body is OptionNone) && (all
        || crate::sizes::text_len(p.func(id).body) >= MIN_TOTAL)
}

/// The program after the abort companions of a list were split, the last first, with
/// the segments of each behind the others; each once, and at most as many as given.
pub open spec fn queue_split(
    p: Prog,
    queue: Seq<FunctionID>,
    done: Seq<FunctionID>,
    left: nat,
    all: bool,
) -> Prog
    decreases left, queue.len(),
{
    if queue.len() == 0 {
        p
    } else {
        let id = queue.last();
        let rest = queue.drop_last();
        if done.contains(id) {
            queue_split(p, rest, done, left, all)
        } else if left == 0 {
            p
        } else if !to_split(p, id, all) {
            queue_split(p, rest, done.push(id), (left - 1) as nat, all)
        } else {
            let small = crate::sizes::text_len(p.func(id).body) < MIN_TOTAL;
            let (q, more) = split_one(p, id, small);
            queue_split(q, rest + more, done.push(id), (left - 1) as nat, all)
        }
    }
}

/// The functions whose names end in the text.
pub open spec fn named_like(fs: Seq<(FunctionID, Func)>, end: Seq<char>) -> Seq<FunctionID>
    decreases fs.len(),
{
    if fs.len() == 0 {
        Seq::empty()
    } else if crate::text::ends(fs.last().1.name, end) {
        named_like(fs.drop_last(), end).push(fs.last().0)
    } else {
        named_like(fs.drop_last(), end)
    }
}

/// The functions whose names end in the text.
fn find_named_like(program: &Program, end: &str) -> (r: Vec<FunctionID>)
    ensures
        r@ == named_like(program@.functions, end@),
{
    let ghost fs = program@.functions;
    let mut out: Vec<FunctionID> = Vec::new();
    let mut i: usize = 0;
    assert(fs.subrange(0, 0) =~= Seq::empty());
    while i < program.functions.len()
        invariant
            i <= program.functions.len(),
            fs == program@.functions,
            out@ == named_like(fs.subrange(0, i as int), end@),
        decreases program.functions.len() - i,
    {
        let ghost next = fs.subrange(0, i + 1);
        assert(next.drop_last() =~= fs.subrange(0, i as int));
        assert(next.last() == (program.functions@[i as int].0, program.functions@[i as int].1@));
        if ends_in(&program.functions[i].1.name, end) {
            out.push(program.functions[i].0);
        }
        i += 1;
    }
    assert(fs.subrange(0, i as int) =~= fs);
    out
}

/// The program after its abort companions were split.
pub open spec fn aborts_split(p: Prog) -> Prog {
    queue_split(
        p,
        named_like(p.functions, ".aborts"@),
        Seq::empty(),
        500,
        has_option(p.decls.module_options, "contract_aborts"@),
    )
}

/// Splits the abort companions of a program.
pub fn decompose_aborts(program: &mut Program)
    ensures
        final(program)@ == aborts_split(old(program)@),
{
    let ghost goal = aborts_split(program@);
    let all = contract_aborts_enabled(program);
    let mut queue = find_named_like(program, ".aborts");
    let mut done: Vec<FunctionID> = Vec::new();
    let mut left: usize = 500;
    while queue.len() > 0
        invariant_except_break
            queue_split(program@, queue@, done@, left as nat, all) == goal,
        ensures
            program@ == goal,
        decreases left, queue.len(),
    {
        let ghost before = queue@;
        let id = queue[queue.len() - 1];
        queue.pop();
        assert(queue@ =~= before.drop_last());
        assert(before.last() == id);
        if contains_id(&done, id) {
            continue;
        }
        if left == 0 {
            break;
        }
        left -= 1;
        let ghost seen = done@;
        done.push(id);
        let size: Option<usize> = match program.function_slot(id) {
            Some(k) => {
                let f = &program.functions[k].1;
                assert(f@ == program@.func(id));
                let empty = match &f.body {
                    IRNode::OptionNone => true,
                    _ => false,
                };
                if is_splittable(f, id) && !empty {
                    Some(approx_size(&f.body))
                } else {
                    None
                }
            },
            None => None,
        };
        match size {
            Some(n) => {
                let small = n < MIN_TOTAL;
                if !small || all {
                    let mut more = decompose_one(program, id, small);
                    let ghost rest = queue@;
                    let ghost extra = more@;
                    queue.append(&mut more);
                    assert(queue@ =~= rest + extra);
                }
            },
            None => {},
        }
    }
}

/// Without a long companion, and without the option, nothing is split.
pub proof fn law_small_companions_stay(
    p: Prog,
    queue: Seq<FunctionID>,
    done: Seq<FunctionID>,
    left: nat,
)
    requires
        forall|i: int|
            0 <= i < queue.len() && p.has(#[trigger] queue[i]) ==> crate::sizes::text_len(
                p.func(queue[i]).body,
            ) < MIN_TOTAL,
    ensures
        queue_split(p, queue, done, left, false) == p,
    decreases left, queue.len(),
{
    if queue.len() > 0 {
        let id = queue.last();
        let rest = queue.drop_last();
        assert(queue[queue.len() - 1] == id);
        assert forall|i: int| 0 <= i < rest.len() && p.has(#[trigger] rest[i]) implies
            crate::sizes::text_len(p.func(rest[i]).body) < MIN_TOTAL by {
            assert(rest[i] == queue[i]);
        }
        if done.contains(id) {
            law_small_companions_stay(p, rest, done, left);
        } else if left > 0 {
            law_small_companions_stay(p, rest, done.push(id), (left - 1) as nat);
        }
    }
}

} // verus!
