//! What bundles of obligations show: what the obligations state, what the proofs rest
//! on, and that a companion whose obligations hold finds no abort.

use crate::bundles::{Claim, Obligation, Proof};
use crate::cut_types::Known;
use crate::decompose_aborts::Stuck;
use crate::ir::Node;
use crate::meaning::{Env, Model, Val};
use crate::program::{Hypothesis, Prog};
use crate::segments::{St, Whole};
use crate::substitution::Subst;
use crate::types::{FunctionID, Name, Ty};
use vstd::prelude::*;

verus! {

/// Which values meet the preconditions of functions.
pub type Preconditions = spec_fn(FunctionID, Seq<Val>) -> bool;

/// Whether what an obligation claims is so.
pub open spec fn claim_holds(claim: Claim, env: Env, m: Model, pre: Preconditions) -> bool {
    match claim {
        Claim::GuardFalse(e) => !crate::meaning::truth(crate::meaning::eval(e, env, m)),
        Claim::GuardTrue(e) => crate::meaning::truth(crate::meaning::eval(e, env, m)),
        Claim::OptionNone(e) => !(crate::meaning::eval(e, env, m) is Just),
        Claim::PropHolds(e) => crate::meaning::truth(crate::meaning::eval(e, env, m)),
        Claim::RequiresHolds { callee, args } => pre(
            callee,
            crate::meaning::eval_all(args, env, m),
        ),
        Claim::CalleeNoneUnderRequires { callee, args } => pre(
            callee,
            crate::meaning::eval_all(args, env, m),
        ) ==> forall|ts: Seq<Ty>, v: Val|
            !((#[trigger] (m.call)(
                callee,
                ts,
                crate::meaning::eval_all(args, env, m).push(v),
            )) is Just),
    }
}

/// Whether each premise has the truth value that it is given.
pub open spec fn path_holds(path: Seq<(Node, bool)>, env: Env, m: Model) -> bool {
    forall|i: int|
        0 <= i < path.len() ==> crate::meaning::truth(
            crate::meaning::eval((#[trigger] path[i]).0, env, m),
        ) == path[i].1
}

/// Whether an obligation holds: what it claims is so where its premises are.
pub open spec fn ob_holds(ob: Obligation, env: Env, m: Model, pre: Preconditions) -> bool {
    path_holds(ob.path, env, m) ==> claim_holds(ob.leaf, env, m, pre)
}

/// Whether all obligations hold.
pub open spec fn all_hold(obs: Seq<Obligation>, env: Env, m: Model, pre: Preconditions) -> bool {
    forall|i: int| 0 <= i < obs.len() ==> ob_holds(#[trigger] obs[i], env, m, pre)
}

/// One more premise.
pub proof fn lemma_path_push(path: Seq<(Node, bool)>, c: Node, holds: bool, env: Env, m: Model)
    ensures
        path_holds(path.push((c, holds)), env, m) == (path_holds(path, env, m)
            && crate::meaning::truth(crate::meaning::eval(c, env, m)) == holds),
{
    let more = path.push((c, holds));
    if path_holds(more, env, m) {
        assert forall|i: int| 0 <= i < path.len() implies crate::meaning::truth(
            crate::meaning::eval((#[trigger] path[i]).0, env, m),
        ) == path[i].1 by {
            assert(more[i] == path[i]);
        }
        assert(more[path.len() as int] == (c, holds));
    }
}

/// What a walk is read against: the companion, the values of its parameters, the model,
/// and the obligations and the program that the walk ends with. The model takes the
/// functions from a position on for their bodies.
pub struct Reading {
    pub w: Whole,
    pub base: Env,
    pub m: Model,
    pub obs: Seq<Obligation>,
    pub end: Prog,
    pub from: nat,
}

/// Whether a model takes the functions that find nothing for what they are.
pub open spec fn reads_nothing(m: Model, p: Prog) -> bool {
    forall|i: int|
        0 <= i < p.functions.len() && (#[trigger] p.functions[i]).1.body is OptionNone
            && !p.functions[i].1.is_native ==> crate::meaning::reads_as(
            m,
            p.functions[i].0,
            p.functions[i].1,
        )
}

/// Whether a model takes the fields, the world's projections, the new functions and those
/// that find nothing for what they are.
pub open spec fn is_fair(c: Reading) -> bool {
    &&& crate::meaning::takes_fields(c.m)
    &&& crate::written_meaning::projects(c.m, c.end.world_functions)
    &&& crate::meaning::reads_from(c.m, c.end, c.from)
    &&& reads_nothing(c.m, c.end)
}

/// Whether a state of the walk lies before the end.
pub open spec fn is_within(s: St, c: Reading) -> bool {
    &&& crate::cutting::begins_with(c.obs, s.obs)
    &&& crate::cutting::begins_with(c.end.functions, s.p.functions)
    &&& c.end.world_functions == s.p.world_functions
    &&& c.from <= s.p.functions.len()
}

/// Whether variables stand for the values that they have, and the proof parameters for
/// themselves.
pub open spec fn is_told(subst: Subst, env: Env, c: Reading) -> bool {
    &&& crate::written_meaning::stands_for(subst, env, c.base, c.m)
    &&& forall|h: Name|
        crate::segments::is_proof_name(c.w, h) ==> (#[trigger] crate::assoc::found(subst, h))
            is None
}

/// What lies before a state that lies before the end does too.
pub proof fn lemma_within(s: St, t: St, c: Reading)
    requires
        crate::cutting::leads_to(c.w, s, t),
        is_within(t, c),
        c.from <= s.p.functions.len(),
    ensures
        is_within(s, c),
{
    reveal(crate::cutting::leads_to);
    assert forall|i: int| 0 <= i < s.obs.len() implies #[trigger] c.obs[i] == s.obs[i] by {
        assert(t.obs[i] == s.obs[i]);
    }
    assert forall|i: int| 0 <= i < s.p.functions.len() implies #[trigger] c.end.functions[i]
        == s.p.functions[i] by {
        assert(t.p.functions[i] == s.p.functions[i]);
    }
}

/// Where cutting leads there are no fewer functions.
pub proof fn lemma_from(w: Whole, s: St, t: St, from: nat)
    requires
        crate::cutting::leads_to(w, s, t),
        from <= s.p.functions.len(),
    ensures
        from <= t.p.functions.len(),
        t.p.world_functions == s.p.world_functions,
{
    reveal(crate::cutting::leads_to);
}

/// The number of an obligation is that of one with its premises and its claim.
pub proof fn lemma_ob_made(s: St, w: Whole, path: Seq<(Node, bool)>, claim: Claim)
    ensures
        ({
            let (ob, t) = crate::obligations::ob_made(s, w, path, claim);
            ob matches Some(i) ==> i < t.obs.len() && t.obs[i as int].path == path
                && t.obs[i as int].leaf == claim
        }),
{
    lemma_found_ob(s.obs, path, claim);
}

/// An obligation that is found has the premises and the claim.
proof fn lemma_found_ob(obs: Seq<Obligation>, path: Seq<(Node, bool)>, claim: Claim)
    ensures
        crate::obligations::found_ob(obs, path, claim) matches Some(i) ==> i < obs.len()
            && obs[i as int].path == path && obs[i as int].leaf == claim,
    decreases obs.len(),
{
    if obs.len() > 0 {
        lemma_found_ob(obs.drop_last(), path, claim);
    }
}

/// The arguments of a segment have the values of the variables that they stand for.
proof fn lemma_written_args(xs: Seq<Name>, subst: Subst, env: Env, c: Reading)
    requires
        is_told(subst, env, c),
    ensures
        crate::obligations::written_args(xs, subst) matches Some(args) ==> args.len() == xs.len()
            && forall|i: int|
            0 <= i < xs.len() && xs[i] != "_"@ ==> crate::meaning::eval(
                #[trigger] args[i],
                c.base,
                c.m,
            ) == env(xs[i]),
    decreases xs.len(),
{
    if xs.len() > 0 {
        lemma_written_args(xs.drop_last(), subst, env, c);
        let x = xs.last();
        if let Some(args) = crate::obligations::written_args(xs, subst) {
            let before = crate::obligations::written_args(xs.drop_last(), subst)->0;
            assert forall|i: int| 0 <= i < xs.len() && xs[i] != "_"@ implies crate::meaning::eval(
                #[trigger] args[i],
                c.base,
                c.m,
            ) == env(xs[i]) by {
                if i < xs.len() - 1 {
                    assert(args[i] == before[i]);
                    assert(xs.drop_last()[i] == xs[i]);
                } else {
                    assert(crate::assoc::found(subst, x) != Some(None::<Node>));
                }
            }
        }
    }
}

/// A wanted variable in scope becomes a parameter.
pub proof fn lemma_wanted(known: Known, want: spec_fn(Name) -> bool, x: Name)
    requires
        want(x),
        crate::assoc::found(known, x) is Some,
    ensures
        crate::segments::wanted_params(known, want) matches Some(ps)
            ==> crate::segments::param_vars(ps).contains(x),
    decreases known.len(),
{
    let ks = crate::assoc::keys(known);
    if let Some(ps) = crate::segments::wanted_params(known, want) {
        if known.len() > 0 {
            let before = crate::segments::wanted_params(known.drop_last(), want)->0;
            assert(crate::assoc::keys(known.drop_last()) =~= ks.drop_last());
            if known.last().0 == x {
                assert(ps.last().ssa_value == x);
                assert(crate::segments::param_vars(ps)[ps.len() - 1] == x);
            } else {
                lemma_wanted(known.drop_last(), want, x);
                let vs = crate::segments::param_vars(before);
                let i = choose|i: int| 0 <= i < vs.len() && vs[i] == x;
                assert(ps[i] == before[i]);
                assert(crate::segments::param_vars(ps)[i] == x);
            }
        }
    }
}

/// A proof parameter that an expression mentions is among those that it mentions.
proof fn lemma_proofs_of(ps: Seq<Hypothesis>, n: Node, i: int)
    requires
        0 <= i < ps.len(),
        n.free(ps[i].name),
    ensures
        crate::segments::proof_names(crate::segments::proofs_of(ps, n)).contains(ps[i].name),
    decreases ps.len(),
{
    let all = crate::segments::proofs_of(ps, n);
    if i == ps.len() - 1 {
        assert(all.last() == ps.last());
        assert(crate::segments::proof_names(all)[all.len() - 1] == ps[i].name);
    } else {
        lemma_proofs_of(ps.drop_last(), n, i);
        let before = crate::segments::proofs_of(ps.drop_last(), n);
        let xs = crate::segments::proof_names(before);
        let j = choose|j: int| 0 <= j < xs.len() && xs[j] == ps[i].name;
        assert(all[j] == before[j]);
        assert(crate::segments::proof_names(all)[j] == ps[i].name);
    }
}

/// A segment is the last function of the program that it was made in.
pub proof fn lemma_segment_made(s: St, w: Whole, n: Node, known: Known)
    ensures
        ({
            let (id, t) = crate::segments::segment_made(s, w, n, known);
            id matches Some(f) ==> {
                let g = t.p.functions.last();
                &&& t.p.functions.len() == s.p.functions.len() + 1
                &&& g.0 == f
                &&& t.p.func(f) == g.1
                &&& g.1.body == n
                &&& crate::segments::covered(w, n, known)
                &&& crate::segments::wanted_params(known, crate::segments::needed(w, n)) == Some(
                    g.1.signature.parameters,
                )
                &&& g.1.signature.proof_params == crate::segments::proofs_of(w.proof_params, n)
            }
        }),
{
    let (id, t) = crate::segments::segment_made(s, w, n, known);
    if let Some(f) = id {
        let fs = t.p.functions;
        let last = fs.len() - 1;
        assert forall|j: int| 0 <= j < last implies (#[trigger] fs[j]).0 != f by {
            assert(fs[j] == s.p.functions[j]);
            crate::segments::lemma_above(s.p.functions, j);
        }
        assert(crate::program::is_slot(fs, f, last));
        crate::program::lemma_slot(fs, f, last);
    }
}

/// The variables of the expression that a segment is made of are among its parameters.
pub proof fn lemma_segment_covers(func: crate::program::Func, n: Node, known: Known, w: Whole)
    requires
        crate::segments::covered(w, n, known),
        crate::segments::wanted_params(known, crate::segments::needed(w, n)) == Some(
            func.signature.parameters,
        ),
        func.signature.proof_params == crate::segments::proofs_of(w.proof_params, n),
    ensures
        forall|x: Name| #[trigger] n.free(x) ==> crate::meaning::given_names(func).contains(x),
{
    let xs = crate::meaning::given_names(func);
    let params = crate::segments::param_vars(func.signature.parameters);
    let proofs = crate::segments::proof_names(func.signature.proof_params);
    assert forall|x: Name| #[trigger] n.free(x) implies xs.contains(x) by {
        if crate::segments::is_proof_name(w, x) {
            let i = choose|i: int|
                0 <= i < w.proof_params.len() && (#[trigger] w.proof_params[i]).name == x;
            lemma_proofs_of(w.proof_params, n, i);
            let j = choose|j: int| 0 <= j < proofs.len() && proofs[j] == x;
            assert(xs[params.len() + j] == x);
        } else {
            lemma_wanted(known, crate::segments::needed(w, n), x);
            let j = choose|j: int| 0 <= j < params.len() && params[j] == x;
            assert(xs[j] == x);
        }
    }
}

/// A segment gives the value of the expression that it was made of, where it is given the
/// values of its variables.
proof fn lemma_segment_gives(
    f: FunctionID,
    func: crate::program::Func,
    n: Node,
    known: Known,
    vs: Seq<Val>,
    env: Env,
    c: Reading,
)
    requires
        func.body == n,
        crate::segments::covered(c.w, n, known),
        crate::segments::wanted_params(known, crate::segments::needed(c.w, n)) == Some(
            func.signature.parameters,
        ),
        func.signature.proof_params == crate::segments::proofs_of(c.w.proof_params, n),
        crate::meaning::reads_as(c.m, f, func),
        vs.len() == crate::meaning::given_names(func).len(),
        forall|i: int|
            0 <= i < vs.len() && crate::meaning::given_names(func)[i] != "_"@ ==> #[trigger] vs[i]
                == env(crate::meaning::given_names(func)[i]),
    ensures
        forall|ts: Seq<Ty>| #[trigger] (c.m.call)(f, ts, vs) == crate::meaning::eval(n, env, c.m),
{
    let xs = crate::meaning::given_names(func);
    let start = |x: Name| Val::Nothing;
    let inside = crate::meaning::given(func, vs);
    assert(xs.subrange(0, xs.len() as int) =~= xs);
    lemma_segment_covers(func, n, known, c.w);
    assert forall|x: Name| #[trigger] n.free(x) && x != "_"@ implies inside(x) == env(x) by {
        assert(xs.contains(x));
        assert forall|i: int| 0 <= i < xs.len() && #[trigger] xs[i] == x implies vs[i] == env(x) by {
            assert(vs[i] == env(xs[i]));
        }
        crate::meaning::lemma_given(env, xs, vs, start, xs.len(), x);
    }
    assert(crate::meaning::agree(n, inside, env));
    crate::meaning::lemma_agree(n, inside, env, c.m);
}

/// A proof that rests on one obligation about a segment rests on one that speaks of the
/// value of the expression.
pub proof fn lemma_opaque_means(
    s: St,
    n: Node,
    known: Known,
    subst: Subst,
    path: Seq<(Node, bool)>,
    as_prop: bool,
    env: Env,
    c: Reading,
)
    requires
        is_fair(c),
        is_told(subst, env, c),
        c.from <= s.p.functions.len(),
        ({
            let (q, t) = crate::obligations::opaque_made(s, c.w, n, known, subst, path, as_prop);
            q is Some && is_within(t, c)
        }),
    ensures
        ({
            let q = crate::obligations::opaque_made(s, c.w, n, known, subst, path, as_prop).0;
            q matches Some(Proof::Leaf { ob }) && ob < c.obs.len() && c.obs[ob as int].path == path
                && match c.obs[ob as int].leaf {
                Claim::OptionNone(e) => !as_prop && crate::meaning::eval(e, c.base, c.m)
                    == crate::meaning::eval(n, env, c.m),
                Claim::PropHolds(e) => as_prop && crate::meaning::eval(e, c.base, c.m)
                    == crate::meaning::eval(n, env, c.m),
                _ => false,
            }
        }),
{
    let (id, s1) = crate::segments::segment_made(s, c.w, n, known);
    lemma_segment_made(s, c.w, n, known);
    let f = id->0;
    let func = s1.p.func(f);
    let sig = func.signature;
    let params = crate::segments::param_vars(sig.parameters);
    let proofs = crate::segments::proof_names(sig.proof_params);
    let args = crate::obligations::written_args(params, subst)->0;
    let all = args + crate::phi_lifting::var_nodes(proofs);
    let call = Node::Call { function: f, type_args: Seq::empty(), args: all };
    let claim = if as_prop {
        Claim::PropHolds(call)
    } else {
        Claim::OptionNone(call)
    };
    let s2 = St { replaced: s1.replaced.push((n, crate::segments::segment_call(s1.p, f))), ..s1 };
    let (ob, s3) = crate::obligations::ob_made(s2, c.w, path, claim);
    lemma_ob_made(s2, c.w, path, claim);
    assert(c.obs[ob->0 as int] == s3.obs[ob->0 as int]);
    let last = s.p.functions.len() as int;
    assert(s3.p == s1.p);
    assert(c.end.functions[last] == s3.p.functions[last]);
    assert(crate::meaning::reads_as(c.m, f, func));
    lemma_written_args(params, subst, env, c);
    let xs = crate::meaning::given_names(func);
    let vs = crate::meaning::values(call, c.base, c.m);
    assert(call.kids() == all);
    assert forall|i: int| 0 <= i < vs.len() && xs[i] != "_"@ implies #[trigger] vs[i] == env(
        xs[i],
    ) by {
        if i < params.len() {
            assert(all[i] == args[i]);
        } else {
            let h = proofs[i - params.len()];
            assert(all[i] == Node::Var(h));
            lemma_proof_named(c.w.proof_params, n, i - params.len());
            assert(crate::segments::is_proof_name(c.w, h));
            assert(crate::assoc::found(subst, h) is None);
        }
    }
    lemma_segment_gives(f, func, n, known, vs, env, c);
    assert(crate::meaning::eval(call, c.base, c.m) == (c.m.call)(f, Seq::empty(), vs));
}

/// The proof parameters that an expression mentions are proof parameters.
proof fn lemma_proof_named(ps: Seq<Hypothesis>, n: Node, i: int)
    requires
        0 <= i < crate::segments::proofs_of(ps, n).len(),
    ensures
        exists|j: int|
            0 <= j < ps.len() && (#[trigger] ps[j]).name == crate::segments::proofs_of(ps, n)[i].name,
    decreases ps.len(),
{
    if ps.len() > 0 {
        let before = crate::segments::proofs_of(ps.drop_last(), n);
        if i < before.len() {
            lemma_proof_named(ps.drop_last(), n, i);
            let j = choose|j: int|
                0 <= j < ps.drop_last().len() && (#[trigger] ps.drop_last()[j]).name
                    == before[i].name;
            assert(ps[j] == ps.drop_last()[j]);
        } else {
            assert(ps[ps.len() - 1].name == crate::segments::proofs_of(ps, n)[i].name);
        }
    }
}

/// Whether an obligation is there, and its premises hold exactly where given.
pub open spec fn is_stated(obs: Seq<Obligation>, ob: nat, env: Env, m: Model, taken: bool) -> bool {
    ob < obs.len() && path_holds(obs[ob as int].path, env, m) == taken
}

/// Whether a proof fits an expression that finds an abort or nothing. The expression has
/// the values of its own variables, and the obligations are read over those of the
/// parameters; the way to the expression is taken or not.
///
/// Nothing is shown of an expression that finds nothing. A leaf rests on an obligation
/// that finds an abort exactly where the expression does. Two checks, one behind the
/// other, each have a proof. Each side of a branch has one, on the way that the condition
/// leads there. A guard rests on an obligation about the condition: that it is false where
/// its side aborts, and true where the other one does.
pub open spec fn fits(
    q: Proof,
    n: Node,
    env: Env,
    base: Env,
    obs: Seq<Obligation>,
    taken: bool,
    m: Model,
) -> bool
    decreases n,
{
    match q {
        Proof::Rfl => !(crate::meaning::eval(n, env, m) is Just),
        Proof::Leaf { ob } => is_stated(obs, ob, base, m, taken) && match obs[ob as int].leaf {
            Claim::OptionNone(e) => crate::meaning::eval(e, base, m) is Just
                == crate::meaning::eval(n, env, m) is Just,
            _ => false,
        },
        _ => match n {
            Node::Let { pattern, value, body } => fits(
                q,
                *body,
                crate::meaning::bound(env, pattern, crate::meaning::eval(*value, env, m)),
                base,
                obs,
                taken,
                m,
            ),
            Node::MatchOption { scrutinee, binding, some_branch, none_branch } => match q {
                Proof::OrElse(a, b) => {
                    &&& forall|v: Val| #[trigger]
                        crate::meaning::eval(
                            *some_branch,
                            crate::meaning::set(env, binding, v),
                            m,
                        ) is Just
                    &&& fits(*a, *scrutinee, env, base, obs, taken, m)
                    &&& fits(*b, *none_branch, env, base, obs, taken, m)
                },
                _ => false,
            },
            Node::If { cond, then_branch, else_branch } => {
                let yes = crate::meaning::truth(crate::meaning::eval(*cond, env, m));
                match q {
                    Proof::BIte(a, b) => fits(*a, *then_branch, env, base, obs, taken && yes, m)
                        && fits(*b, *else_branch, env, base, obs, taken && !yes, m),
                    Proof::DIte(a, b) => fits(*a, *then_branch, env, base, obs, taken && yes, m)
                        && fits(*b, *else_branch, env, base, obs, taken && !yes, m),
                    Proof::GuardFalse { ob, rest } => {
                        &&& is_stated(obs, ob, base, m, taken)
                        &&& obs[ob as int].leaf matches Claim::GuardFalse(e)
                            && crate::meaning::truth(crate::meaning::eval(e, base, m)) == yes
                        &&& crate::meaning::eval(*then_branch, env, m) is Just
                        &&& fits(*rest, *else_branch, env, base, obs, taken, m)
                    },
                    Proof::GuardTrue { ob, rest } => {
                        &&& is_stated(obs, ob, base, m, taken)
                        &&& obs[ob as int].leaf matches Claim::GuardTrue(e)
                            && crate::meaning::truth(crate::meaning::eval(e, base, m)) == yes
                        &&& crate::meaning::eval(*else_branch, env, m) is Just
                        &&& fits(*rest, *then_branch, env, base, obs, taken, m)
                    },
                    _ => false,
                }
            },
            Node::Call { function, args, .. } => match q {
                Proof::RequiresApp { req_ob, call_ob } => {
                    &&& args.len() > 0
                    &&& is_stated(obs, req_ob, base, m, taken)
                    &&& is_stated(obs, call_ob, base, m, taken)
                    &&& obs[req_ob as int].leaf matches Claim::RequiresHolds { callee, args: given }
                        && callee == function && crate::meaning::eval_all(given, base, m)
                        == crate::meaning::eval_all(args.drop_last(), env, m)
                    &&& obs[call_ob as int].leaf matches Claim::CalleeNoneUnderRequires {
                        callee,
                        args: given,
                    } && callee == function && crate::meaning::eval_all(given, base, m)
                        == crate::meaning::eval_all(args.drop_last(), env, m)
                },
                _ => false,
            },
            _ => false,
        },
    }
}

/// A proof that fits an expression shows that it finds no abort where the obligations
/// hold.
pub proof fn law_a_proof_shows_that_nothing_aborts(
    q: Proof,
    n: Node,
    env: Env,
    base: Env,
    obs: Seq<Obligation>,
    m: Model,
    pre: Preconditions,
)
    requires
        fits(q, n, env, base, obs, true, m),
        all_hold(obs, base, m, pre),
    ensures
        !(crate::meaning::eval(n, env, m) is Just),
    decreases n,
{
    match q {
        Proof::Rfl => {},
        Proof::Leaf { ob } => {
            assert(ob_holds(obs[ob as int], base, m, pre));
        },
        _ => match n {
            Node::Let { pattern, value, body } => {
                let inner = crate::meaning::bound(
                    env,
                    pattern,
                    crate::meaning::eval(*value, env, m),
                );
                law_a_proof_shows_that_nothing_aborts(q, *body, inner, base, obs, m, pre);
            },
            Node::MatchOption { scrutinee, binding, some_branch, none_branch } => {
                if let Proof::OrElse(a, b) = q {
                    law_a_proof_shows_that_nothing_aborts(*a, *scrutinee, env, base, obs, m, pre);
                    law_a_proof_shows_that_nothing_aborts(*b, *none_branch, env, base, obs, m, pre);
                }
            },
            Node::If { cond, then_branch, else_branch } => {
                let yes = crate::meaning::truth(crate::meaning::eval(*cond, env, m));
                match q {
                    Proof::BIte(a, b) | Proof::DIte(a, b) => {
                        if yes {
                            law_a_proof_shows_that_nothing_aborts(
                                *a,
                                *then_branch,
                                env,
                                base,
                                obs,
                                m,
                                pre,
                            );
                        } else {
                            law_a_proof_shows_that_nothing_aborts(
                                *b,
                                *else_branch,
                                env,
                                base,
                                obs,
                                m,
                                pre,
                            );
                        }
                    },
                    Proof::GuardFalse { ob, rest } => {
                        assert(ob_holds(obs[ob as int], base, m, pre));
                        law_a_proof_shows_that_nothing_aborts(
                            *rest,
                            *else_branch,
                            env,
                            base,
                            obs,
                            m,
                            pre,
                        );
                    },
                    Proof::GuardTrue { ob, rest } => {
                        assert(ob_holds(obs[ob as int], base, m, pre));
                        law_a_proof_shows_that_nothing_aborts(
                            *rest,
                            *then_branch,
                            env,
                            base,
                            obs,
                            m,
                            pre,
                        );
                    },
                    _ => {},
                }
            },
            Node::Call { function, type_args, args } => {
                if let Proof::RequiresApp { req_ob, call_ob } = q {
                    assert(ob_holds(obs[req_ob as int], base, m, pre));
                    assert(ob_holds(obs[call_ob as int], base, m, pre));
                    let given = crate::meaning::eval_all(args.drop_last(), env, m);
                    assert(n.kids() == args);
                    assert(crate::meaning::values(n, env, m) =~= given.push(
                        crate::meaning::eval(args.last(), env, m),
                    ));
                }
            },
            _ => {},
        },
    }
}

/// An obligation of a proof that fits an expression, other than one about a precondition,
/// holds where the expression finds no abort: no more is asked than has to hold.
pub proof fn law_a_proof_asks_for_no_more_than_holds(
    q: Proof,
    n: Node,
    env: Env,
    base: Env,
    obs: Seq<Obligation>,
    taken: bool,
    m: Model,
    pre: Preconditions,
    i: nat,
)
    requires
        fits(q, n, env, base, obs, taken, m),
        taken ==> !(crate::meaning::eval(n, env, m) is Just),
        q.uses(i),
        i < obs.len(),
        !(obs[i as int].leaf is RequiresHolds),
        !(obs[i as int].leaf is CalleeNoneUnderRequires),
    ensures
        ob_holds(obs[i as int], base, m, pre),
    decreases n,
{
    match q {
        Proof::Rfl => {},
        Proof::Leaf { ob } => {},
        _ => match n {
            Node::Let { pattern, value, body } => {
                let inner = crate::meaning::bound(
                    env,
                    pattern,
                    crate::meaning::eval(*value, env, m),
                );
                law_a_proof_asks_for_no_more_than_holds(
                    q,
                    *body,
                    inner,
                    base,
                    obs,
                    taken,
                    m,
                    pre,
                    i,
                );
            },
            Node::MatchOption { scrutinee, binding, some_branch, none_branch } => {
                if let Proof::OrElse(a, b) = q {
                    if let Val::Just(v) = crate::meaning::eval(*scrutinee, env, m) {
                        assert(crate::meaning::eval(
                            *some_branch,
                            crate::meaning::set(env, binding, *v),
                            m,
                        ) is Just);
                    }
                    if a.uses(i) {
                        law_a_proof_asks_for_no_more_than_holds(
                            *a,
                            *scrutinee,
                            env,
                            base,
                            obs,
                            taken,
                            m,
                            pre,
                            i,
                        );
                    } else {
                        law_a_proof_asks_for_no_more_than_holds(
                            *b,
                            *none_branch,
                            env,
                            base,
                            obs,
                            taken,
                            m,
                            pre,
                            i,
                        );
                    }
                }
            },
            Node::If { cond, then_branch, else_branch } => {
                let yes = crate::meaning::truth(crate::meaning::eval(*cond, env, m));
                match q {
                    Proof::BIte(a, b) | Proof::DIte(a, b) => {
                        if a.uses(i) {
                            law_a_proof_asks_for_no_more_than_holds(
                                *a,
                                *then_branch,
                                env,
                                base,
                                obs,
                                taken && yes,
                                m,
                                pre,
                                i,
                            );
                        } else {
                            law_a_proof_asks_for_no_more_than_holds(
                                *b,
                                *else_branch,
                                env,
                                base,
                                obs,
                                taken && !yes,
                                m,
                                pre,
                                i,
                            );
                        }
                    },
                    Proof::GuardFalse { ob, rest } => {
                        if ob != i {
                            law_a_proof_asks_for_no_more_than_holds(
                                *rest,
                                *else_branch,
                                env,
                                base,
                                obs,
                                taken,
                                m,
                                pre,
                                i,
                            );
                        }
                    },
                    Proof::GuardTrue { ob, rest } => {
                        if ob != i {
                            law_a_proof_asks_for_no_more_than_holds(
                                *rest,
                                *then_branch,
                                env,
                                base,
                                obs,
                                taken,
                                m,
                                pre,
                                i,
                            );
                        }
                    },
                    _ => {},
                }
            },
            _ => {},
        },
    }
}

/// Whether no name is bound on the way through a companion that would be mistaken for
/// another: the conditions, the values and the ends of the ways bind none of the names
/// around them, and no binding takes the name of a proof parameter.
pub open spec fn is_tidy(n: Node, names: spec_fn(Name) -> bool, w: Whole) -> bool
    decreases n,
{
    match n {
        Node::Let { pattern, value, body } => {
            &&& crate::written_meaning::among(*value, names)
            &&& forall|x: Name| #[trigger]
                pattern.contains(x) ==> !crate::segments::is_proof_name(w, x)
            &&& is_tidy(*body, crate::written_meaning::more_names(names, pattern), w)
        },
        Node::If { cond, then_branch, else_branch } => {
            &&& crate::written_meaning::among(*cond, names)
            &&& is_tidy(*then_branch, names, w)
            &&& is_tidy(*else_branch, names, w)
        },
        Node::MatchOption { scrutinee, none_branch, .. } => is_tidy(*scrutinee, names, w)
            && is_tidy(*none_branch, names, w),
        Node::Call { .. } => crate::written_meaning::among(n, names),
        Node::Var(_) => crate::written_meaning::among(n, names),
        _ => true,
    }
}

/// What ends in a value behind bindings has one.
proof fn lemma_ends_in_some(n: Node, env: Env, m: Model)
    requires
        crate::obligations::ends_in_some(n),
    ensures
        crate::meaning::eval(n, env, m) is Just,
    decreases n,
{
    if let Node::Let { pattern, value, body } = n {
        lemma_ends_in_some(
            *body,
            crate::meaning::bound(env, pattern, crate::meaning::eval(*value, env, m)),
            m,
        );
    }
}

/// The arguments of a call stand among the names that the call stands among.
pub proof fn lemma_args_among(n: Node, names: spec_fn(Name) -> bool, i: int)
    requires
        n is Call,
        crate::written_meaning::among(n, names),
        0 <= i < n.kids().len(),
    ensures
        crate::written_meaning::among(n.kids()[i], names),
{
    let kid = n.kids()[i];
    let t = |k: Node| k.uses_here("_"@);
    if kid.uses("_"@) {
        assert(n.kids()[i].any(t));
        assert(n.any_kid(t));
    }
    assert forall|x: Name| #[trigger] kid.free(x) implies names(x) by {
        assert(n.kids()[i].free(x) && !n.binds(i, x));
        assert(n.free_in_kid(x));
        assert(n.free(x));
    }
    assert forall|y: Name| #[trigger] crate::meaning::binds_in(kid, y) && y
        != "_"@ implies !names(y) by {
        crate::meaning::lemma_binds_in(n, i, y);
        assert(crate::meaning::binds_in(n, y));
    }
}

/// Written-out arguments have the values of the arguments.
proof fn lemma_short_args(
    args: Seq<Node>,
    subst: Subst,
    env: Env,
    c: Reading,
    names: spec_fn(Name) -> bool,
)
    requires
        is_fair(c),
        is_told(subst, env, c),
        crate::written_meaning::told_among(subst, names),
        forall|i: int|
            0 <= i < args.len() ==> crate::written_meaning::among(#[trigger] args[i], names),
    ensures
        crate::decompose_aborts::short_args(args, subst) matches Some(vs)
            ==> crate::meaning::eval_all(vs, c.base, c.m) == crate::meaning::eval_all(
            args,
            env,
            c.m,
        ),
    decreases args.len(),
{
    if args.len() > 0 {
        let front = args.drop_last();
        assert forall|i: int| 0 <= i < front.len() implies crate::written_meaning::among(
            #[trigger] front[i],
            names,
        ) by {
            assert(front[i] == args[i]);
        }
        lemma_short_args(front, subst, env, c, names);
        assert(crate::written_meaning::among(args[args.len() - 1], names));
        crate::written_meaning::lemma_written(args.last(), subst, env, c.base, c.m, names);
        if let Some(vs) = crate::decompose_aborts::short_args(args, subst) {
            let before = crate::decompose_aborts::short_args(front, subst)->0;
            let (x, y) = (
                crate::meaning::eval_all(vs, c.base, c.m),
                crate::meaning::eval_all(args, env, c.m),
            );
            let (u, v) = (
                crate::meaning::eval_all(before, c.base, c.m),
                crate::meaning::eval_all(front, env, c.m),
            );
            assert(x =~= y) by {
                assert(u.len() == before.len() && v.len() == front.len());
                assert forall|i: int| 0 <= i < x.len() implies x[i] == y[i] by {
                    if i < front.len() {
                        assert(u[i] == v[i]);
                        assert(vs[i] == before[i]);
                    }
                }
            }
        }
    } else {
        if let Some(vs) = crate::decompose_aborts::short_args(args, subst) {
            assert(crate::meaning::eval_all(vs, c.base, c.m) =~= crate::meaning::eval_all(
                args,
                env,
                c.m,
            ));
        }
    }
}

/// A leaf about a segment fits.
proof fn lemma_opaque_fits(
    s: St,
    n: Node,
    known: Known,
    subst: Subst,
    path: Seq<(Node, bool)>,
    env: Env,
    c: Reading,
)
    requires
        is_fair(c),
        is_told(subst, env, c),
        c.from <= s.p.functions.len(),
        ({
            let (q, t) = crate::obligations::opaque_made(s, c.w, n, known, subst, path, false);
            q is Some && is_within(t, c)
        }),
    ensures
        ({
            let q = crate::obligations::opaque_made(s, c.w, n, known, subst, path, false).0;
            fits(q->0, n, env, c.base, c.obs, path_holds(path, c.base, c.m), c.m)
        }),
{
    lemma_opaque_means(s, n, known, subst, path, false, env, c);
}

/// A leaf about a written-out expression fits.
proof fn lemma_leaf_fits(
    s: St,
    n: Node,
    e: Node,
    path: Seq<(Node, bool)>,
    env: Env,
    c: Reading,
)
    requires
        crate::meaning::eval(e, c.base, c.m) == crate::meaning::eval(n, env, c.m),
        ({
            let (q, t) = crate::decompose_aborts::leaf_made(s, c.w, path, Claim::OptionNone(e));
            q is Some && is_within(t, c)
        }),
    ensures
        ({
            let q = crate::decompose_aborts::leaf_made(s, c.w, path, Claim::OptionNone(e)).0;
            fits(q->0, n, env, c.base, c.obs, path_holds(path, c.base, c.m), c.m)
        }),
{
    lemma_ob_made(s, c.w, path, Claim::OptionNone(e));
    let (ob, t) = crate::obligations::ob_made(s, c.w, path, Claim::OptionNone(e));
    assert(c.obs[ob->0 as int] == t.obs[ob->0 as int]);
}

/// The proof for a call fits.
proof fn lemma_call_fits(
    n: Node,
    s: St,
    known: Known,
    subst: Subst,
    path: Seq<(Node, bool)>,
    env: Env,
    c: Reading,
    names: spec_fn(Name) -> bool,
)
    requires
        n is Call,
        is_fair(c),
        is_told(subst, env, c),
        crate::written_meaning::told_among(subst, names),
        crate::written_meaning::among(n, names),
        c.from <= s.p.functions.len(),
        ({
            let (q, t) = crate::decompose_aborts::call_made(n, s, c.w, known, subst, path);
            q is Some && is_within(t, c)
        }),
    ensures
        ({
            let q = crate::decompose_aborts::call_made(n, s, c.w, known, subst, path).0;
            fits(q->0, n, env, c.base, c.obs, path_holds(path, c.base, c.m), c.m)
        }),
{
    let f = n->Call_function;
    let args = n->Call_args;
    let (q, t) = crate::decompose_aborts::call_made(n, s, c.w, known, subst, path);
    crate::cutting::lemma_call(n, s, c.w, known, subst, path);
    lemma_within(s, t, c);
    assert(n.kids() == args);
    if s.p.has(f) && !s.p.func(f).is_native && s.p.func(f).body is OptionNone {
        let i = crate::program::slot(s.p.functions, f)->0;
        assert(crate::program::is_slot(s.p.functions, f, i));
        assert(c.end.functions[i] == s.p.functions[i]);
        assert(crate::meaning::reads_as(c.m, f, s.p.func(f)));
        assert(crate::meaning::eval(n, env, c.m) == (c.m.call)(
            f,
            n->Call_type_args,
            crate::meaning::values(n, env, c.m),
        ));
    } else if crate::decompose_aborts::asks_precondition(s.p, n) {
        let front = args.drop_last();
        assert forall|i: int| 0 <= i < front.len() implies crate::written_meaning::among(
            #[trigger] front[i],
            names,
        ) by {
            assert(front[i] == n.kids()[i]);
            lemma_args_among(n, names, i);
        }
        lemma_short_args(front, subst, env, c, names);
        match crate::decompose_aborts::short_args(front, subst) {
            Some(vs) => {
                let asked = Claim::RequiresHolds { callee: f, args: vs };
                let none = Claim::CalleeNoneUnderRequires { callee: f, args: vs };
                let (req, s1) = crate::obligations::ob_made(s, c.w, path, asked);
                let (call, s2) = crate::obligations::ob_made(s1, c.w, path, none);
                lemma_ob_made(s, c.w, path, asked);
                lemma_ob_made(s1, c.w, path, none);
                crate::cutting::lemma_ob(s, c.w, path, asked);
                crate::cutting::lemma_ob(s1, c.w, path, none);
                lemma_from(c.w, s, s1, c.from);
                lemma_from(c.w, s1, s2, c.from);
                if req is Some && call is Some {
                    lemma_within(s1, s2, c);
                    assert(c.obs[req->0 as int] == s1.obs[req->0 as int]);
                    assert(c.obs[call->0 as int] == s2.obs[call->0 as int]);
                } else {
                    lemma_opaque_fits(s2, n, known, subst, path, env, c);
                }
            },
            None => {
                lemma_opaque_fits(s, n, known, subst, path, env, c);
            },
        }
    } else if crate::obligations::has_abort(n) {
        lemma_opaque_fits(s, n, known, subst, path, env, c);
    } else {
        crate::written_meaning::lemma_written(n, subst, env, c.base, c.m, names);
        if let Some(e) = crate::substitution::substituted(n, subst) {
            lemma_leaf_fits(s, n, e, path, env, c);
        }
    }
}

/// What a walk is begun with: the variables stand for their values, nothing is mistaken
/// for another, and the functions so far are those that are read from.
pub open spec fn is_ready(
    n: Node,
    s: St,
    subst: Subst,
    env: Env,
    c: Reading,
    names: spec_fn(Name) -> bool,
) -> bool {
    &&& is_fair(c)
    &&& is_told(subst, env, c)
    &&& crate::written_meaning::told_among(subst, names)
    &&& is_tidy(n, names, c.w)
    &&& c.from <= s.p.functions.len()
}

/// The proof of the walk over an expression fits it.
proof fn lemma_bundled_fits(
    n: Node,
    s: St,
    known: Known,
    subst: Subst,
    path: Seq<(Node, bool)>,
    env: Env,
    c: Reading,
    names: spec_fn(Name) -> bool,
)
    requires
        is_ready(n, s, subst, env, c, names),
        ({
            let (q, t) = crate::decompose_aborts::bundled(n, s, c.w, known, subst, path);
            q is Some && is_within(t, c)
        }),
    ensures
        ({
            let q = crate::decompose_aborts::bundled(n, s, c.w, known, subst, path).0;
            fits(q->0, n, env, c.base, c.obs, path_holds(path, c.base, c.m), c.m)
        }),
    decreases n, 2nat,
{
    if crate::decompose_aborts::goes_on(n) {
        let r = lemma_on_fits(
            n,
            n,
            s,
            known,
            subst,
            path,
            Seq::empty(),
            None,
            env,
            env,
            c,
            names,
        );
    } else {
        lemma_end_fits(n, s, known, subst, path, env, c, names);
    }
}

/// The proof of the walk over what is left of an expression: either what is behind the
/// proofs before it fits what is left, or what is behind those before the first variable
/// that could not be written out fits what stands from there on. Gives which of both it
/// is, and the proof behind.
pub proof fn lemma_on_fits(
    whole: Node,
    n: Node,
    s: St,
    known: Known,
    subst: Subst,
    path: Seq<(Node, bool)>,
    lefts: Seq<Proof>,
    stuck: Option<Stuck>,
    env: Env,
    stuck_env: Env,
    c: Reading,
    names: spec_fn(Name) -> bool,
) -> (r: (bool, Proof))
    requires
        is_ready(n, s, subst, env, c, names),
        crate::cutting::all_rest_on(lefts, s.obs.len()),
        stuck matches Some(k) ==> is_told(k.subst, stuck_env, c) && k.behind <= lefts.len(),
        ({
            let (q, t) = crate::decompose_aborts::bundled_on(
                whole,
                n,
                s,
                c.w,
                known,
                subst,
                path,
                lefts,
                stuck,
            );
            q is Some && is_within(t, c)
        }),
    ensures
        ({
            let q = crate::decompose_aborts::bundled_on(
                whole,
                n,
                s,
                c.w,
                known,
                subst,
                path,
                lefts,
                stuck,
            ).0;
            let taken = path_holds(path, c.base, c.m);
            if r.0 {
                q == Some(crate::decompose_aborts::checks_joined(lefts, r.1)) && fits(
                    r.1,
                    n,
                    env,
                    c.base,
                    c.obs,
                    taken,
                    c.m,
                )
            } else {
                stuck matches Some(k) && q == Some(
                    crate::decompose_aborts::checks_joined(
                        lefts.subrange(0, k.behind as int),
                        r.1,
                    ),
                ) && fits(r.1, k.tail, stuck_env, c.base, c.obs, taken, c.m)
            }
        }),
    decreases n, 1nat,
{
    let (q, t) = crate::decompose_aborts::bundled_on(
        whole,
        n,
        s,
        c.w,
        known,
        subst,
        path,
        lefts,
        stuck,
    );
    crate::cutting::lemma_walk_on(whole, n, s, c.w, known, subst, path, lefts, stuck);
    lemma_within(s, t, c);
    if !crate::decompose_aborts::goes_on(n) {
        let (proof_, s1) = crate::decompose_aborts::bundled_end(n, s, c.w, known, subst, path);
        crate::cutting::lemma_walk_end(n, s, c.w, known, subst, path);
        match proof_ {
            Some(x) => {
                lemma_end_fits(n, s, known, subst, path, env, c, names);
                (true, x)
            },
            None => {
                lemma_from(c.w, s, s1, c.from);
                lemma_escalated_fits(
                    n,
                    s1,
                    known,
                    subst,
                    path,
                    lefts,
                    stuck,
                    env,
                    stuck_env,
                    c,
                )
            },
        }
    } else {
        match n {
            Node::Let { pattern, value, body } => {
                let (subst1, bad) = crate::obligations::bound_values(
                    whole,
                    true,
                    s.p.world_functions,
                    pattern,
                    *value,
                    subst,
                );
                let fresh = stuck is None && bad;
                let stuck1 = if fresh {
                    Some(Stuck { tail: n, known, subst, behind: lefts.len() })
                } else {
                    stuck
                };
                let known1 = crate::cut_types::behind(
                    known,
                    pattern,
                    crate::cut_types::told_type(*value, known, s.p),
                );
                let inner = crate::meaning::bound(
                    env,
                    pattern,
                    crate::meaning::eval(*value, env, c.m),
                );
                let stuck_env1 = if fresh {
                    env
                } else {
                    stuck_env
                };
                crate::written_meaning::lemma_bound_values(
                    whole,
                    true,
                    s.p.world_functions,
                    pattern,
                    *value,
                    subst,
                    env,
                    c.base,
                    c.m,
                    names,
                );
                let more = crate::written_meaning::more_names(names, pattern);
                assert(is_told(subst1, inner, c)) by {
                    assert forall|h: Name| crate::segments::is_proof_name(c.w, h) implies (
                    #[trigger] crate::assoc::found(subst1, h)) is None by {
                        assert(!pattern.contains(h));
                        assert(crate::assoc::found(subst, h) is None);
                    }
                }
                let r = lemma_on_fits(
                    whole,
                    *body,
                    s,
                    known1,
                    subst1,
                    path,
                    lefts,
                    stuck1,
                    inner,
                    stuck_env1,
                    c,
                    more,
                );
                assert(lefts.subrange(0, lefts.len() as int) =~= lefts);
                if fresh && !r.0 {
                    (true, r.1)
                } else {
                    r
                }
            },
            Node::MatchOption { scrutinee, binding, some_branch, none_branch } => {
                let (proof_, s1) = crate::decompose_aborts::bundled(
                    *scrutinee,
                    s,
                    c.w,
                    known,
                    subst,
                    path,
                );
                crate::cutting::law_walk_only_adds(*scrutinee, s, c.w, known, subst, path);
                crate::cutting::lemma_still_rest(c.w, s, s1, lefts);
                lemma_from(c.w, s, s1, c.from);
                match proof_ {
                    Some(x) => {
                        let more = lefts.push(x);
                        assert(crate::cutting::all_rest_on(more, s1.obs.len())) by {
                            assert forall|k: int| 0 <= k < more.len() implies crate::cutting::rests_on(
                                Some(#[trigger] more[k]),
                                s1.obs.len(),
                            ) by {
                                if k < lefts.len() {
                                    assert(crate::cutting::rests_on(Some(lefts[k]), s1.obs.len()));
                                }
                            }
                        }
                        crate::cutting::lemma_walk_on(
                            whole,
                            *none_branch,
                            s1,
                            c.w,
                            known,
                            subst,
                            path,
                            more,
                            stuck,
                        );
                        lemma_within(s1, t, c);
                        lemma_bundled_fits(*scrutinee, s, known, subst, path, env, c, names);
                        let r = lemma_on_fits(
                            whole,
                            *none_branch,
                            s1,
                            known,
                            subst,
                            path,
                            more,
                            stuck,
                            env,
                            stuck_env,
                            c,
                            names,
                        );
                        if r.0 {
                            let both = Proof::OrElse(Box::new(x), Box::new(r.1));
                            assert(more.last() == x);
                            assert(more.drop_last() =~= lefts);
                            assert forall|v: Val| #[trigger]
                                crate::meaning::eval(
                                    *some_branch,
                                    crate::meaning::set(env, binding, v),
                                    c.m,
                                ) is Just by {
                                assert(*some_branch is OptionSome);
                            }
                            (true, both)
                        } else {
                            assert(more.subrange(0, stuck->0.behind as int) =~= lefts.subrange(
                                0,
                                stuck->0.behind as int,
                            ));
                            r
                        }
                    },
                    None => lemma_escalated_fits(
                        n,
                        s1,
                        known,
                        subst,
                        path,
                        lefts,
                        stuck,
                        env,
                        stuck_env,
                        c,
                    ),
                }
            },
            _ => (true, Proof::Rfl),
        }
    }
}

/// The proof of the rest of an expression as one segment fits.
proof fn lemma_escalated_fits(
    n: Node,
    s: St,
    known: Known,
    subst: Subst,
    path: Seq<(Node, bool)>,
    lefts: Seq<Proof>,
    stuck: Option<Stuck>,
    env: Env,
    stuck_env: Env,
    c: Reading,
) -> (r: (bool, Proof))
    requires
        is_fair(c),
        is_told(subst, env, c),
        c.from <= s.p.functions.len(),
        stuck matches Some(k) ==> is_told(k.subst, stuck_env, c) && k.behind <= lefts.len(),
        ({
            let (q, t) = crate::decompose_aborts::escalated(
                n,
                s,
                c.w,
                known,
                subst,
                path,
                lefts,
                stuck,
            );
            q is Some && is_within(t, c)
        }),
    ensures
        ({
            let q = crate::decompose_aborts::escalated(
                n,
                s,
                c.w,
                known,
                subst,
                path,
                lefts,
                stuck,
            ).0;
            let taken = path_holds(path, c.base, c.m);
            if r.0 {
                q == Some(crate::decompose_aborts::checks_joined(lefts, r.1)) && fits(
                    r.1,
                    n,
                    env,
                    c.base,
                    c.obs,
                    taken,
                    c.m,
                )
            } else {
                stuck matches Some(k) && q == Some(
                    crate::decompose_aborts::checks_joined(
                        lefts.subrange(0, k.behind as int),
                        r.1,
                    ),
                ) && fits(r.1, k.tail, stuck_env, c.base, c.obs, taken, c.m)
            }
        }),
{
    match stuck {
        Some(k) => {
            lemma_opaque_fits(s, k.tail, k.known, k.subst, path, stuck_env, c);
            (
                false,
                crate::obligations::opaque_made(s, c.w, k.tail, k.known, k.subst, path, false).0->0,
            )
        },
        None => {
            lemma_opaque_fits(s, n, known, subst, path, env, c);
            (true, crate::obligations::opaque_made(s, c.w, n, known, subst, path, false).0->0)
        },
    }
}

/// The proof of an expression that does not go on behind itself fits it.
proof fn lemma_end_fits(
    n: Node,
    s: St,
    known: Known,
    subst: Subst,
    path: Seq<(Node, bool)>,
    env: Env,
    c: Reading,
    names: spec_fn(Name) -> bool,
)
    requires
        is_ready(n, s, subst, env, c, names),
        !crate::decompose_aborts::goes_on(n),
        ({
            let (q, t) = crate::decompose_aborts::bundled_end(n, s, c.w, known, subst, path);
            q is Some && is_within(t, c)
        }),
    ensures
        ({
            let q = crate::decompose_aborts::bundled_end(n, s, c.w, known, subst, path).0;
            fits(q->0, n, env, c.base, c.obs, path_holds(path, c.base, c.m), c.m)
        }),
    decreases n, 0nat,
{
    let (q, t) = crate::decompose_aborts::bundled_end(n, s, c.w, known, subst, path);
    crate::cutting::lemma_walk_end(n, s, c.w, known, subst, path);
    lemma_within(s, t, c);
    match n {
        Node::OptionNone => {},
        Node::If { cond, then_branch, else_branch } => {
            let sc = crate::substitution::substituted(*cond, subst);
            let dependent = crate::obligations::is_dependent(s.p, *then_branch, *else_branch);
            crate::written_meaning::lemma_written(*cond, subst, env, c.base, c.m, names);
            if (dependent && sc is None) || (!dependent && crate::obligations::has_abort(n)) {
                lemma_opaque_fits(s, n, known, subst, path, env, c);
            } else if sc is None {
            } else if !dependent && crate::obligations::ends_in_some(*then_branch) {
                let claim = Claim::GuardFalse(sc->0);
                let (ob, s1) = crate::obligations::ob_made(s, c.w, path, claim);
                lemma_ends_in_some(*then_branch, env, c.m);
                lemma_guard_fits(*else_branch, s, s1, claim, known, subst, path, c, t);
                lemma_bundled_fits(*else_branch, s1, known, subst, path, env, c, names);
            } else if !dependent && crate::obligations::ends_in_some(*else_branch) {
                let claim = Claim::GuardTrue(sc->0);
                let (ob, s1) = crate::obligations::ob_made(s, c.w, path, claim);
                lemma_ends_in_some(*else_branch, env, c.m);
                lemma_guard_fits(*then_branch, s, s1, claim, known, subst, path, c, t);
                lemma_bundled_fits(*then_branch, s1, known, subst, path, env, c, names);
            } else {
                let on = path.push((sc->0, true));
                let off = path.push((sc->0, false));
                lemma_path_push(path, sc->0, true, c.base, c.m);
                lemma_path_push(path, sc->0, false, c.base, c.m);
                let s1 = crate::decompose_aborts::bundled(
                    *then_branch,
                    s,
                    c.w,
                    known,
                    subst,
                    on,
                ).1;
                crate::cutting::law_walk_only_adds(*then_branch, s, c.w, known, subst, on);
                lemma_from(c.w, s, s1, c.from);
                crate::cutting::law_walk_only_adds(*else_branch, s1, c.w, known, subst, off);
                lemma_within(s1, t, c);
                lemma_bundled_fits(*then_branch, s, known, subst, on, env, c, names);
                lemma_bundled_fits(*else_branch, s1, known, subst, off, env, c, names);
            }
        },
        Node::Call { .. } => {
            lemma_call_fits(n, s, known, subst, path, env, c, names);
        },
        Node::Var(_) => {
            crate::written_meaning::lemma_written(n, subst, env, c.base, c.m, names);
            if let Some(e) = crate::substitution::substituted(n, subst) {
                if !(e is OptionNone) {
                    lemma_leaf_fits(s, n, e, path, env, c);
                }
            }
        },
        _ => {
            lemma_opaque_fits(s, n, known, subst, path, env, c);
        },
    }
}

/// The obligation of a guard is there at the end, and so is what was there before the walk
/// over the rest.
proof fn lemma_guard_fits(
    rest: Node,
    s: St,
    s1: St,
    claim: Claim,
    known: Known,
    subst: Subst,
    path: Seq<(Node, bool)>,
    c: Reading,
    t: St,
)
    requires
        s1 == crate::obligations::ob_made(s, c.w, path, claim).1,
        crate::obligations::ob_made(s, c.w, path, claim).0 is Some,
        t == crate::decompose_aborts::bundled(rest, s1, c.w, known, subst, path).1,
        is_within(t, c),
        c.from <= s.p.functions.len(),
    ensures
        is_within(s1, c),
        ({
            let ob = crate::obligations::ob_made(s, c.w, path, claim).0->0;
            ob < c.obs.len() && c.obs[ob as int].path == path && c.obs[ob as int].leaf == claim
        }),
{
    crate::cutting::lemma_ob(s, c.w, path, claim);
    lemma_ob_made(s, c.w, path, claim);
    lemma_from(c.w, s, s1, c.from);
    crate::cutting::law_walk_only_adds(rest, s1, c.w, known, subst, path);
    lemma_within(s1, t, c);
    let ob = crate::obligations::ob_made(s, c.w, path, claim).0->0;
    assert(c.obs[ob as int] == s1.obs[ob as int]);
}

/// What a walk over the body of a companion is read against.
pub open spec fn reading_of(w: Whole, s: St, t: St, env: Env, m: Model) -> Reading {
    Reading { w, base: env, m, obs: t.obs, end: t.p, from: s.p.functions.len() }
}

/// A bundle is sound. The proof of the walk over a companion fits it, whatever the values
/// of its variables are; where all obligations hold, the companion finds no abort; and
/// where it finds none, the obligations that the proof rests on hold, but for those about
/// preconditions.
///
/// The model takes the segments that the walk makes, and functions that find nothing, for
/// what they are.
pub proof fn law_a_bundle_is_sound(
    n: Node,
    s: St,
    w: Whole,
    known: Known,
    env: Env,
    m: Model,
    names: spec_fn(Name) -> bool,
    pre: Preconditions,
)
    requires
        is_tidy(n, names, w),
        crate::decompose_aborts::bundled(n, s, w, known, Seq::empty(), Seq::empty()).0 is Some,
        ({
            let t = crate::decompose_aborts::bundled(
                n,
                s,
                w,
                known,
                Seq::empty(),
                Seq::empty(),
            ).1;
            is_fair(reading_of(w, s, t, env, m))
        }),
    ensures
        ({
            let (q, t) = crate::decompose_aborts::bundled(
                n,
                s,
                w,
                known,
                Seq::empty(),
                Seq::empty(),
            );
            &&& fits(q->0, n, env, env, t.obs, true, m)
            &&& all_hold(t.obs, env, m, pre) ==> !(crate::meaning::eval(n, env, m) is Just)
            &&& !(crate::meaning::eval(n, env, m) is Just) ==> forall|i: nat|
                q->0.uses(i) && i < t.obs.len() && !(t.obs[i as int].leaf is RequiresHolds) && !(
                t.obs[i as int].leaf is CalleeNoneUnderRequires) ==> ob_holds(
                    #[trigger] t.obs[i as int],
                    env,
                    m,
                    pre,
                )
        }),
{
    let none: Subst = Seq::empty();
    let path: Seq<(Node, bool)> = Seq::empty();
    let (q, t) = crate::decompose_aborts::bundled(n, s, w, known, none, path);
    let c = reading_of(w, s, t, env, m);
    crate::cutting::law_walk_only_adds(n, s, w, known, none, path);
    lemma_from(w, s, t, c.from);
    assert(is_within(t, c));
    assert forall|x: Name| (#[trigger] crate::assoc::found(none, x)) is None by {}
    assert forall|x: Name| #[trigger] crate::written_meaning::in_content(none, x) implies names(
        x,
    ) by {
        crate::written_meaning::lemma_no_content(x);
    }
    lemma_bundled_fits(n, s, known, none, path, env, c, names);
    assert(path_holds(path, env, m));
    if all_hold(t.obs, env, m, pre) {
        law_a_proof_shows_that_nothing_aborts(q->0, n, env, env, t.obs, m, pre);
    }
    if !(crate::meaning::eval(n, env, m) is Just) {
        assert forall|i: nat|
            q->0.uses(i) && i < t.obs.len() && !(t.obs[i as int].leaf is RequiresHolds) && !(
            t.obs[i as int].leaf is CalleeNoneUnderRequires) implies ob_holds(
            #[trigger] t.obs[i as int],
            env,
            m,
            pre,
        ) by {
            law_a_proof_asks_for_no_more_than_holds(q->0, n, env, env, t.obs, true, m, pre, i);
        }
    }
}

} // verus!
