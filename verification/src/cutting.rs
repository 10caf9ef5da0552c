//! What the cutting of companions keeps: functions are only added, under new numbers,
//! and obligations only added, each over the parameters of the companion.

use crate::bundles::{Claim, Obligation, Proof};
use crate::cut_types::Known;
use crate::decompose_aborts::Stuck;
use crate::ir::Node;
use crate::program::{Func, Prog};
use crate::segments::{St, Whole};
use crate::spine_cuts::StepOf;
use crate::substitution::Subst;
use crate::types::Name;
use vstd::prelude::*;

verus! {

/// Whether a list begins with another.
pub open spec fn begins_with<T>(long: Seq<T>, short: Seq<T>) -> bool {
    short.len() <= long.len() && forall|i: int|
        0 <= i < short.len() ==> #[trigger] long[i] == short[i]
}

/// Whether a program is another one with more functions, each under a number that no
/// function had.
pub open spec fn has_more_functions(p: Prog, q: Prog) -> bool {
    &&& q == (Prog { functions: q.functions, ..p })
    &&& begins_with(q.functions, p.functions)
    &&& forall|i: int|
        p.functions.len() <= i < q.functions.len() ==> (#[trigger] q.functions[i]).0
            >= crate::segments::above(p.functions)
}

/// Whether a call is that of a function with its own parameters, and the function is made
/// of an expression whose variables they are.
pub open spec fn is_own_call(g: (usize, Func), n: Node, call: Node) -> bool {
    &&& g.1.body == n
    &&& call == crate::segments::call_on(g.0, crate::meaning::given_names(g.1))
    &&& forall|x: crate::types::Name| #[trigger]
        n.free(x) ==> crate::meaning::given_names(g.1).contains(x)
}

/// Whether a call stands for an expression that one of the functions from a position on is
/// made of.
pub open spec fn stands_for_part(pair: (Node, Node), p: Prog, from: nat) -> bool {
    exists|j: int|
        from <= j < p.functions.len() && is_own_call(#[trigger] p.functions[j], pair.0, pair.1)
}

/// Whether the cutting of a companion leads from one state to another by adding alone:
/// functions and segments under new numbers, calls that stand for parts that new functions
/// are made of, and obligations that mention parameters and proof parameters of the
/// companion only.
#[verifier::opaque]
pub open spec fn leads_to(w: Whole, s: St, t: St) -> bool {
    &&& has_more_functions(s.p, t.p)
    &&& begins_with(t.created, s.created)
    &&& forall|i: int|
        s.created.len() <= i < t.created.len() ==> #[trigger] t.created[i]
            >= crate::segments::above(s.p.functions)
    &&& begins_with(t.replaced, s.replaced)
    &&& forall|i: int|
        s.replaced.len() <= i < t.replaced.len() ==> stands_for_part(
            #[trigger] t.replaced[i],
            t.p,
            s.p.functions.len(),
        )
    &&& begins_with(t.obs, s.obs)
    &&& forall|i: int|
        s.obs.len() <= i < t.obs.len() ==> crate::obligations::statable(
            w,
            (#[trigger] t.obs[i]).path,
            t.obs[i].leaf,
        )
}

/// Whether a proof, where there is one, uses only the first obligations.
pub open spec fn rests_on(q: Option<Proof>, count: nat) -> bool {
    q matches Some(x) ==> forall|i: nat| #[trigger] x.uses(i) ==> i < count
}

/// More functions have no smaller number above them.
pub proof fn lemma_above_grows(a: Seq<(usize, Func)>, b: Seq<(usize, Func)>)
    requires
        begins_with(b, a),
    ensures
        crate::segments::above(a) <= crate::segments::above(b),
    decreases b.len(),
{
    if b.len() > a.len() {
        let c = b.drop_last();
        assert forall|i: int| 0 <= i < a.len() implies #[trigger] c[i] == a[i] by {
            assert(b[i] == a[i]);
        }
        lemma_above_grows(a, c);
    } else {
        assert(a =~= b);
    }
}

/// Nothing done leads to the same state.
pub proof fn lemma_stays(w: Whole, s: St)
    ensures
        leads_to(w, s, s),
{
    reveal(leads_to);
}

/// What leads on from where something led leads there from the start.
pub proof fn lemma_leads_on(w: Whole, a: St, b: St, c: St)
    requires
        leads_to(w, a, b),
        leads_to(w, b, c),
    ensures
        leads_to(w, a, c),
{
    reveal(leads_to);
    lemma_above_grows(a.p.functions, b.p.functions);
    assert forall|i: int| 0 <= i < a.p.functions.len() implies #[trigger] c.p.functions[i]
        == a.p.functions[i] by {
        assert(b.p.functions[i] == a.p.functions[i]);
    }
    assert forall|i: int| a.p.functions.len() <= i < c.p.functions.len() implies (
    #[trigger] c.p.functions[i]).0 >= crate::segments::above(a.p.functions) by {
        if i < b.p.functions.len() {
            assert(c.p.functions[i] == b.p.functions[i]);
        }
    }
    assert forall|i: int| 0 <= i < a.created.len() implies #[trigger] c.created[i]
        == a.created[i] by {
        assert(b.created[i] == a.created[i]);
    }
    assert forall|i: int| a.created.len() <= i < c.created.len() implies #[trigger] c.created[i]
        >= crate::segments::above(a.p.functions) by {
        if i < b.created.len() {
            assert(c.created[i] == b.created[i]);
        }
    }
    assert forall|i: int| 0 <= i < a.replaced.len() implies #[trigger] c.replaced[i]
        == a.replaced[i] by {
        assert(b.replaced[i] == a.replaced[i]);
    }
    assert forall|i: int| a.replaced.len() <= i < c.replaced.len() implies stands_for_part(
        #[trigger] c.replaced[i],
        c.p,
        a.p.functions.len(),
    ) by {
        let pair = c.replaced[i];
        if i < b.replaced.len() {
            assert(pair == b.replaced[i]);
            let j = choose|j: int|
                a.p.functions.len() <= j < b.p.functions.len() && is_own_call(
                    #[trigger] b.p.functions[j],
                    pair.0,
                    pair.1,
                );
            assert(c.p.functions[j] == b.p.functions[j]);
        } else {
            let j = choose|j: int|
                b.p.functions.len() <= j < c.p.functions.len() && is_own_call(
                    #[trigger] c.p.functions[j],
                    pair.0,
                    pair.1,
                );
            assert(is_own_call(c.p.functions[j], pair.0, pair.1));
        }
    }
    assert forall|i: int| 0 <= i < a.obs.len() implies #[trigger] c.obs[i] == a.obs[i] by {
        assert(b.obs[i] == a.obs[i]);
    }
    assert forall|i: int| a.obs.len() <= i < c.obs.len() implies crate::obligations::statable(
        w,
        (#[trigger] c.obs[i]).path,
        c.obs[i].leaf,
    ) by {
        if i < b.obs.len() {
            assert(c.obs[i] == b.obs[i]);
        }
    }
}

/// There are no fewer obligations where cutting leads.
pub proof fn lemma_no_fewer(w: Whole, s: St, t: St)
    requires
        leads_to(w, s, t),
    ensures
        s.obs.len() <= t.obs.len(),
{
    reveal(leads_to);
}

/// Naming an expression only adds.
pub proof fn lemma_atom(s: St, w: Whole, n: Node, known: Known)
    ensures
        leads_to(w, s, crate::segments::atom_made(s, w, n, known).1),
{
    reveal(leads_to);
    let t = crate::segments::atom_made(s, w, n, known).1;
    assert(t.p == (Prog { functions: t.p.functions, ..s.p }));
}

/// Naming a side of a branch only adds.
pub proof fn lemma_named_side(s: St, w: Whole, n: Node, known: Known, arith: Subst)
    ensures
        leads_to(w, s, crate::segments::named_side(s, w, n, known, arith).1),
{
    lemma_stays(w, s);
    lemma_atom(s, w, crate::substitution::inlined(n, arith), known);
}

/// Naming a value only adds.
pub proof fn lemma_named_value(
    s: St,
    w: Whole,
    pattern: Seq<Name>,
    value: Node,
    known: Known,
    arith: Subst,
)
    ensures
        leads_to(w, s, crate::segments::named_value(s, w, pattern, value, known, arith).1),
{
    lemma_stays(w, s);
    let long = crate::substitution::inlined(value, arith);
    lemma_atom(s, w, long, known);
    if let Node::If { cond, then_branch, else_branch } = value {
        let s1 = crate::segments::named_side(s, w, *then_branch, known, arith).1;
        let s2 = crate::segments::named_side(s1, w, *else_branch, known, arith).1;
        lemma_named_side(s, w, *then_branch, known, arith);
        lemma_named_side(s1, w, *else_branch, known, arith);
        lemma_leads_on(w, s, s1, s2);
    }
}

/// Naming the long values of an expression only adds.
pub proof fn lemma_hoisted(n: Node, s: St, w: Whole, known: Known, arith: Subst)
    ensures
        leads_to(w, s, crate::segments::hoisted(n, s, w, known, arith).1),
    decreases n,
{
    lemma_stays(w, s);
    match n {
        Node::Let { pattern, value, body } => {
            let (v, s1, arith1) = crate::segments::named_value(
                s,
                w,
                pattern,
                *value,
                known,
                arith,
            );
            let known1 = crate::cut_types::behind(
                known,
                pattern,
                crate::cut_types::told_type(v, known, s1.p),
            );
            lemma_named_value(s, w, pattern, *value, known, arith);
            lemma_hoisted(*body, s1, w, known1, arith1);
            lemma_leads_on(w, s, s1, crate::segments::hoisted(*body, s1, w, known1, arith1).1);
        },
        Node::MatchOption { scrutinee, none_branch, .. } => {
            let goes = *scrutinee is Let || *scrutinee is MatchOption || *scrutinee is If;
            let s1 = if goes {
                crate::segments::hoisted(*scrutinee, s, w, known, Seq::empty()).1
            } else {
                s
            };
            if goes {
                lemma_hoisted(*scrutinee, s, w, known, Seq::empty());
            }
            lemma_hoisted(*none_branch, s1, w, known, arith);
            lemma_leads_on(
                w,
                s,
                s1,
                crate::segments::hoisted(*none_branch, s1, w, known, arith).1,
            );
        },
        Node::If { then_branch, else_branch, .. } => {
            let s1 = crate::segments::hoisted(*then_branch, s, w, known, Seq::empty()).1;
            lemma_hoisted(*then_branch, s, w, known, Seq::empty());
            lemma_hoisted(*else_branch, s1, w, known, Seq::empty());
            lemma_leads_on(
                w,
                s,
                s1,
                crate::segments::hoisted(*else_branch, s1, w, known, Seq::empty()).1,
            );
        },
        _ => {},
    }
}

/// Making a segment only adds.
pub proof fn lemma_segment(s: St, w: Whole, n: Node, known: Known)
    ensures
        leads_to(w, s, crate::segments::segment_made(s, w, n, known).1),
{
    reveal(leads_to);
    let t = crate::segments::segment_made(s, w, n, known).1;
    assert(t.p == (Prog { functions: t.p.functions, ..s.p }));
}

/// The number of an obligation that is there is one of those that are there.
proof fn lemma_found_ob(obs: Seq<Obligation>, path: Seq<(Node, bool)>, claim: Claim)
    ensures
        crate::obligations::found_ob(obs, path, claim) matches Some(i) ==> i < obs.len(),
    decreases obs.len(),
{
    if obs.len() > 0 {
        lemma_found_ob(obs.drop_last(), path, claim);
    }
}

/// Stating an obligation only adds, and its number is one of those that are then there.
pub proof fn lemma_ob(s: St, w: Whole, path: Seq<(Node, bool)>, claim: Claim)
    ensures
        ({
            let (ob, t) = crate::obligations::ob_made(s, w, path, claim);
            leads_to(w, s, t) && (ob matches Some(i) ==> i < t.obs.len())
        }),
{
    reveal(leads_to);
    lemma_found_ob(s.obs, path, claim);
}

/// Letting a proof rest on a segment only adds.
pub proof fn lemma_opaque(
    s: St,
    w: Whole,
    n: Node,
    known: Known,
    subst: Subst,
    path: Seq<(Node, bool)>,
    as_prop: bool,
)
    ensures
        ({
            let (q, t) = crate::obligations::opaque_made(s, w, n, known, subst, path, as_prop);
            leads_to(w, s, t) && rests_on(q, t.obs.len())
        }),
{
    lemma_stays(w, s);
    let (id, s1) = crate::segments::segment_made(s, w, n, known);
    lemma_segment(s, w, n, known);
    if let Some(f) = id {
        let sig = s1.p.func(f).signature;
        if let Some(args) = crate::obligations::written_args(
            crate::segments::param_vars(sig.parameters),
            subst,
        ) {
            let call = Node::Call {
                function: f,
                type_args: Seq::empty(),
                args: args + crate::phi_lifting::var_nodes(
                    crate::segments::proof_names(sig.proof_params),
                ),
            };
            let claim = if as_prop {
                Claim::PropHolds(call)
            } else {
                Claim::OptionNone(call)
            };
            let s2 = St {
                replaced: s1.replaced.push((n, crate::segments::segment_call(s1.p, f))),
                ..s1
            };
            crate::bundle_meaning::lemma_segment_made(s, w, n, known);
            assert(leads_to(w, s, s2)) by {
                reveal(leads_to);
                let last = s1.p.functions.len() - 1;
                let g = s1.p.functions[last];
                crate::bundle_meaning::lemma_segment_covers(g.1, n, known, w);
                assert(s1.p.func(f) == g.1);
                assert(s1.p.has(f)) by {
                    crate::program::lemma_slot_exists(s1.p.functions, f, last);
                }
                assert(is_own_call(s2.p.functions[last], n, crate::segments::segment_call(s1.p, f)));
                assert forall|i: int|
                    s.replaced.len() <= i < s2.replaced.len() implies stands_for_part(
                    #[trigger] s2.replaced[i],
                    s2.p,
                    s.p.functions.len(),
                ) by {
                    assert(s2.replaced[i] == (n, crate::segments::segment_call(s1.p, f)));
                }
            }
            lemma_ob(s2, w, path, claim);
            let s3 = crate::obligations::ob_made(s2, w, path, claim).1;
            lemma_leads_on(w, s, s2, s3);
        }
    }
}

/// Letting a proof rest on one obligation only adds.
pub proof fn lemma_leaf(s: St, w: Whole, path: Seq<(Node, bool)>, claim: Claim)
    ensures
        ({
            let (q, t) = crate::decompose_aborts::leaf_made(s, w, path, claim);
            leads_to(w, s, t) && rests_on(q, t.obs.len())
        }),
{
    lemma_ob(s, w, path, claim);
}

/// The proof for a call only adds.
pub proof fn lemma_call(
    n: Node,
    s: St,
    w: Whole,
    known: Known,
    subst: Subst,
    path: Seq<(Node, bool)>,
)
    requires
        n is Call,
    ensures
        ({
            let (q, t) = crate::decompose_aborts::call_made(n, s, w, known, subst, path);
            leads_to(w, s, t) && rests_on(q, t.obs.len())
        }),
{
    lemma_stays(w, s);
    lemma_opaque(s, w, n, known, subst, path, false);
    let f = n->Call_function;
    let args = n->Call_args;
    if let Some(vs) = crate::decompose_aborts::short_args(args.drop_last(), subst) {
        let first = Claim::RequiresHolds { callee: f, args: vs };
        let second = Claim::CalleeNoneUnderRequires { callee: f, args: vs };
        let s1 = crate::obligations::ob_made(s, w, path, first).1;
        let s2 = crate::obligations::ob_made(s1, w, path, second).1;
        lemma_ob(s, w, path, first);
        lemma_ob(s1, w, path, second);
        lemma_no_fewer(w, s1, s2);
        lemma_leads_on(w, s, s1, s2);
        lemma_opaque(s2, w, n, known, subst, path, false);
        lemma_leads_on(
            w,
            s,
            s2,
            crate::obligations::opaque_made(s2, w, n, known, subst, path, false).1,
        );
    }
    if let Some(e) = crate::substitution::substituted(n, subst) {
        lemma_leaf(s, w, path, Claim::OptionNone(e));
    }
}

/// Whether each of the proofs uses only the first obligations.
pub open spec fn all_rest_on(qs: Seq<Proof>, count: nat) -> bool {
    forall|k: int| 0 <= k < qs.len() ==> rests_on(Some(#[trigger] qs[k]), count)
}

/// Proofs that are joined use what each of them uses.
proof fn lemma_joined(lefts: Seq<Proof>, last: Proof, count: nat)
    requires
        all_rest_on(lefts, count),
        rests_on(Some(last), count),
    ensures
        rests_on(Some(crate::decompose_aborts::checks_joined(lefts, last)), count),
    decreases lefts.len(),
{
    if lefts.len() > 0 {
        let q = Proof::OrElse(Box::new(lefts.last()), Box::new(last));
        assert(rests_on(Some(lefts[lefts.len() - 1]), count));
        assert(rests_on(Some(q), count)) by {
            assert forall|i: nat| #[trigger] q.uses(i) implies i < count by {
                if lefts.last().uses(i) {
                } else {
                    assert(last.uses(i));
                }
            }
        }
        assert(all_rest_on(lefts.drop_last(), count)) by {
            assert forall|k: int| 0 <= k < lefts.drop_last().len() implies rests_on(
                Some(#[trigger] lefts.drop_last()[k]),
                count,
            ) by {
                assert(rests_on(Some(lefts[k]), count));
            }
        }
        lemma_joined(lefts.drop_last(), q, count);
    }
}

/// The proof of the rest of an expression as one segment only adds.
pub proof fn lemma_escalated(
    n: Node,
    s: St,
    w: Whole,
    known: Known,
    subst: Subst,
    path: Seq<(Node, bool)>,
    lefts: Seq<Proof>,
    stuck: Option<Stuck>,
)
    requires
        all_rest_on(lefts, s.obs.len()),
    ensures
        ({
            let (q, t) = crate::decompose_aborts::escalated(
                n,
                s,
                w,
                known,
                subst,
                path,
                lefts,
                stuck,
            );
            leads_to(w, s, t) && rests_on(q, t.obs.len())
        }),
{
    let (proof_, s1) = match stuck {
        Some(k) => crate::obligations::opaque_made(
            s,
            w,
            k.tail,
            k.known,
            k.subst,
            path,
            false,
        ),
        None => crate::obligations::opaque_made(s, w, n, known, subst, path, false),
    };
    match stuck {
        Some(k) => {
            lemma_opaque(s, w, k.tail, k.known, k.subst, path, false);
        },
        None => {
            lemma_opaque(s, w, n, known, subst, path, false);
        },
    }
    lemma_no_fewer(w, s, s1);
    let kept = match stuck {
        Some(k) => if k.behind <= lefts.len() {
            lefts.subrange(0, k.behind as int)
        } else {
            lefts
        },
        None => lefts,
    };
    assert(all_rest_on(kept, s1.obs.len())) by {
        assert forall|k: int| 0 <= k < kept.len() implies rests_on(
            Some(#[trigger] kept[k]),
            s1.obs.len(),
        ) by {
            assert(kept[k] == lefts[k]);
            assert(rests_on(Some(lefts[k]), s.obs.len()));
        }
    }
    if let Some(q) = proof_ {
        lemma_joined(kept, q, s1.obs.len());
    }
}

/// Proofs that use only the first obligations use only those that are there later.
pub proof fn lemma_still_rest(w: Whole, s: St, t: St, qs: Seq<Proof>)
    requires
        leads_to(w, s, t),
        all_rest_on(qs, s.obs.len()),
    ensures
        all_rest_on(qs, t.obs.len()),
{
    lemma_no_fewer(w, s, t);
    assert forall|k: int| 0 <= k < qs.len() implies rests_on(
        Some(#[trigger] qs[k]),
        t.obs.len(),
    ) by {
        assert(rests_on(Some(qs[k]), s.obs.len()));
    }
}

/// The walk over an abort companion only adds: the obligations that were there stay in
/// place, each new one mentions parameters and proof parameters of the companion only,
/// and the proof uses obligations that are then there.
pub proof fn law_walk_only_adds(
    n: Node,
    s: St,
    w: Whole,
    known: Known,
    subst: Subst,
    path: Seq<(Node, bool)>,
)
    ensures
        ({
            let (q, t) = crate::decompose_aborts::bundled(n, s, w, known, subst, path);
            leads_to(w, s, t) && rests_on(q, t.obs.len())
        }),
    decreases n, 3nat,
{
    if crate::decompose_aborts::goes_on(n) {
        lemma_walk_on(n, n, s, w, known, subst, path, Seq::empty(), None);
    } else {
        lemma_walk_end(n, s, w, known, subst, path);
    }
}

/// The walk over what is left of an abort companion only adds.
pub proof fn lemma_walk_on(
    whole: Node,
    n: Node,
    s: St,
    w: Whole,
    known: Known,
    subst: Subst,
    path: Seq<(Node, bool)>,
    lefts: Seq<Proof>,
    stuck: Option<Stuck>,
)
    requires
        all_rest_on(lefts, s.obs.len()),
    ensures
        ({
            let (q, t) = crate::decompose_aborts::bundled_on(
                whole,
                n,
                s,
                w,
                known,
                subst,
                path,
                lefts,
                stuck,
            );
            leads_to(w, s, t) && rests_on(q, t.obs.len())
        }),
    decreases n, 2nat,
{
    lemma_stays(w, s);
    if !crate::decompose_aborts::goes_on(n) {
        let (proof_, s1) = crate::decompose_aborts::bundled_end(n, s, w, known, subst, path);
        lemma_walk_end(n, s, w, known, subst, path);
        lemma_still_rest(w, s, s1, lefts);
        match proof_ {
            Some(q) => {
                lemma_joined(lefts, q, s1.obs.len());
            },
            None => {
                lemma_escalated(n, s1, w, known, subst, path, lefts, stuck);
                lemma_leads_on(
                    w,
                    s,
                    s1,
                    crate::decompose_aborts::escalated(
                        n,
                        s1,
                        w,
                        known,
                        subst,
                        path,
                        lefts,
                        stuck,
                    ).1,
                );
            },
        }
    } else {
        match n {
            Node::Let { pattern, value, body } => {
                let (subst1, bad) = crate::obligations::bound_values(
                    whole,
                    true,
                    s.p.world_functions,
                    pattern,
                    *value,
                    subst,
                );
                let stuck1 = if stuck is None && bad {
                    Some(Stuck { tail: n, known, subst, behind: lefts.len() })
                } else {
                    stuck
                };
                let known1 = crate::cut_types::behind(
                    known,
                    pattern,
                    crate::cut_types::told_type(*value, known, s.p),
                );
                lemma_walk_on(whole, *body, s, w, known1, subst1, path, lefts, stuck1);
            },
            Node::MatchOption { scrutinee, none_branch, .. } => {
                let (proof_, s1) = crate::decompose_aborts::bundled(
                    *scrutinee,
                    s,
                    w,
                    known,
                    subst,
                    path,
                );
                law_walk_only_adds(*scrutinee, s, w, known, subst, path);
                lemma_still_rest(w, s, s1, lefts);
                match proof_ {
                    Some(q) => {
                        assert(all_rest_on(lefts.push(q), s1.obs.len())) by {
                            let more = lefts.push(q);
                            assert forall|k: int| 0 <= k < more.len() implies rests_on(
                                Some(#[trigger] more[k]),
                                s1.obs.len(),
                            ) by {
                                if k < lefts.len() {
                                    assert(rests_on(Some(lefts[k]), s1.obs.len()));
                                }
                            }
                        }
                        lemma_walk_on(
                            whole,
                            *none_branch,
                            s1,
                            w,
                            known,
                            subst,
                            path,
                            lefts.push(q),
                            stuck,
                        );
                        lemma_leads_on(
                            w,
                            s,
                            s1,
                            crate::decompose_aborts::bundled_on(
                                whole,
                                *none_branch,
                                s1,
                                w,
                                known,
                                subst,
                                path,
                                lefts.push(q),
                                stuck,
                            ).1,
                        );
                    },
                    None => {
                        lemma_escalated(n, s1, w, known, subst, path, lefts, stuck);
                        lemma_leads_on(
                            w,
                            s,
                            s1,
                            crate::decompose_aborts::escalated(
                                n,
                                s1,
                                w,
                                known,
                                subst,
                                path,
                                lefts,
                                stuck,
                            ).1,
                        );
                    },
                }
            },
            _ => {},
        }
    }
}

/// The walk over the end of an abort companion only adds.
pub proof fn lemma_walk_end(
    n: Node,
    s: St,
    w: Whole,
    known: Known,
    subst: Subst,
    path: Seq<(Node, bool)>,
)
    ensures
        ({
            let (q, t) = crate::decompose_aborts::bundled_end(n, s, w, known, subst, path);
            leads_to(w, s, t) && rests_on(q, t.obs.len())
        }),
    decreases n, 1nat,
{
    lemma_stays(w, s);
    lemma_opaque(s, w, n, known, subst, path, false);
    match n {
        Node::If { cond, then_branch, else_branch } => {
            if let Some(c) = crate::substitution::substituted(*cond, subst) {
                lemma_guarded(
                    *else_branch,
                    s,
                    w,
                    known,
                    subst,
                    path,
                    Claim::GuardFalse(c),
                );
                lemma_guarded(*then_branch, s, w, known, subst, path, Claim::GuardTrue(c));
                lemma_both(n, s, w, known, subst, path, c);
            }
        },
        Node::Call { .. } => {
            lemma_call(n, s, w, known, subst, path);
        },
        Node::Var(_) => {
            if let Some(e) = crate::substitution::substituted(n, subst) {
                lemma_leaf(s, w, path, Claim::OptionNone(e));
            }
        },
        _ => {},
    }
}

/// An obligation on a condition, and the walk over the side that is left, only add.
proof fn lemma_guarded(
    n: Node,
    s: St,
    w: Whole,
    known: Known,
    subst: Subst,
    path: Seq<(Node, bool)>,
    claim: Claim,
)
    ensures
        ({
            let (ob, s1) = crate::obligations::ob_made(s, w, path, claim);
            let (rest, s2) = crate::decompose_aborts::bundled(n, s1, w, known, subst, path);
            &&& leads_to(w, s, s1)
            &&& leads_to(w, s, s2)
            &&& ob is Some && rest is Some ==> rests_on(
                Some(Proof::GuardFalse { ob: ob->0, rest: Box::new(rest->0) }),
                s2.obs.len(),
            ) && rests_on(
                Some(Proof::GuardTrue { ob: ob->0, rest: Box::new(rest->0) }),
                s2.obs.len(),
            )
        }),
    decreases n, 4nat,
{
    let (ob, s1) = crate::obligations::ob_made(s, w, path, claim);
    let (rest, s2) = crate::decompose_aborts::bundled(n, s1, w, known, subst, path);
    lemma_ob(s, w, path, claim);
    law_walk_only_adds(n, s1, w, known, subst, path);
    lemma_leads_on(w, s, s1, s2);
    lemma_no_fewer(w, s1, s2);
    if ob is Some && rest is Some {
        let (i, q) = (ob->0, rest->0);
        let no = Proof::GuardFalse { ob: i, rest: Box::new(q) };
        let yes = Proof::GuardTrue { ob: i, rest: Box::new(q) };
        assert forall|k: nat| #[trigger] no.uses(k) implies k < s2.obs.len() by {
            assert(k == i || q.uses(k));
        }
        assert forall|k: nat| #[trigger] yes.uses(k) implies k < s2.obs.len() by {
            assert(k == i || q.uses(k));
        }
    }
}

/// The walks over the two sides of a branch only add.
proof fn lemma_both(
    n: Node,
    s: St,
    w: Whole,
    known: Known,
    subst: Subst,
    path: Seq<(Node, bool)>,
    c: Node,
)
    requires
        n is If,
    ensures
        ({
            let (a, s1) = crate::decompose_aborts::bundled(
                *n->If_then_branch,
                s,
                w,
                known,
                subst,
                path.push((c, true)),
            );
            let (b, s2) = crate::decompose_aborts::bundled(
                *n->If_else_branch,
                s1,
                w,
                known,
                subst,
                path.push((c, false)),
            );
            &&& leads_to(w, s, s1)
            &&& leads_to(w, s, s2)
            &&& a is Some && b is Some ==> rests_on(
                Some(Proof::DIte(Box::new(a->0), Box::new(b->0))),
                s2.obs.len(),
            ) && rests_on(
                Some(Proof::BIte(Box::new(a->0), Box::new(b->0))),
                s2.obs.len(),
            )
        }),
    decreases n, 0nat,
{
    let yes = path.push((c, true));
    let no = path.push((c, false));
    let (t, e) = (*n->If_then_branch, *n->If_else_branch);
    let (a, s1) = crate::decompose_aborts::bundled(t, s, w, known, subst, yes);
    law_walk_only_adds(t, s, w, known, subst, yes);
    let (b, s2) = crate::decompose_aborts::bundled(e, s1, w, known, subst, no);
    law_walk_only_adds(e, s1, w, known, subst, no);
    lemma_leads_on(w, s, s1, s2);
    lemma_no_fewer(w, s1, s2);
    if a is Some && b is Some {
        let d = Proof::DIte(Box::new(a->0), Box::new(b->0));
        let i = Proof::BIte(Box::new(a->0), Box::new(b->0));
        assert forall|k: nat| #[trigger] d.uses(k) implies k < s2.obs.len() by {
            assert((a->0).uses(k) || (b->0).uses(k));
        }
        assert forall|k: nat| #[trigger] i.uses(k) implies k < s2.obs.len() by {
            assert((a->0).uses(k) || (b->0).uses(k));
        }
    }
}

/// Cutting out a part of an expression only adds.
pub proof fn lemma_cut_out(n: Node, s: St, w: Whole, known: Known)
    ensures
        leads_to(w, s, crate::spine_cuts::cut_out(n, s, w, known).1),
    decreases n, 2nat,
{
    lemma_stays(w, s);
    lemma_segmented(n, s, w, known);
}

/// Cutting out the long parts of an expression only adds.
pub proof fn lemma_shrunk(n: Node, s: St, w: Whole, scopes: Seq<Known>, i: nat)
    ensures
        leads_to(w, s, crate::spine_cuts::shrunk(n, s, w, scopes, i).2),
    decreases n, 0nat,
{
    lemma_stays(w, s);
    match n {
        Node::Let { body, .. } => {
            lemma_shrunk(*body, s, w, scopes, i + 1);
        },
        Node::MatchOption { scrutinee, none_branch, .. } => {
            let s1 = crate::spine_cuts::cut_out(*scrutinee, s, w, scopes[i as int]).1;
            lemma_cut_out(*scrutinee, s, w, scopes[i as int]);
            lemma_shrunk(*none_branch, s1, w, scopes, i + 1);
            lemma_leads_on(
                w,
                s,
                s1,
                crate::spine_cuts::shrunk(*none_branch, s1, w, scopes, i + 1).2,
            );
        },
        Node::If { then_branch, else_branch, .. } => {
            let s1 = if crate::spine_cuts::abort_shows(*then_branch) {
                s
            } else {
                crate::spine_cuts::cut_out(*then_branch, s, w, scopes[i as int]).1
            };
            lemma_cut_out(*then_branch, s, w, scopes[i as int]);
            lemma_stays(w, s1);
            lemma_cut_out(*else_branch, s1, w, scopes[i as int]);
            lemma_leads_on(
                w,
                s,
                s1,
                crate::spine_cuts::cut_out(*else_branch, s1, w, scopes[i as int]).1,
            );
        },
        _ => {},
    }
}

/// Making a chain of segments only adds.
pub proof fn lemma_chain(
    s: St,
    w: Whole,
    steps: Seq<StepOf>,
    cuts: Seq<nat>,
    scopes: Seq<Known>,
    j: nat,
    tail: Node,
)
    ensures
        leads_to(w, s, crate::spine_cuts::chain_made(s, w, steps, cuts, scopes, j, tail).1),
    decreases j,
{
    let body = crate::spine_cuts::rebuilt(
        steps.subrange(cuts[j as int] as int, cuts[j as int + 1] as int),
        tail,
    );
    let (id, s1) = crate::segments::segment_made(s, w, body, scopes[cuts[j as int] as int]);
    lemma_segment(s, w, body, scopes[cuts[j as int] as int]);
    if j > 0 {
        let next = match id {
            Some(f) => crate::segments::segment_call(s1.p, f),
            None => body,
        };
        lemma_chain(s1, w, steps, cuts, scopes, (j - 1) as nat, next);
        lemma_leads_on(
            w,
            s,
            s1,
            crate::spine_cuts::chain_made(s1, w, steps, cuts, scopes, (j - 1) as nat, next).1,
        );
    }
}

/// Cutting an expression into segments only adds.
pub proof fn lemma_segmented(n: Node, s: St, w: Whole, known: Known)
    ensures
        leads_to(w, s, crate::spine_cuts::segmented(n, s, w, known).1),
    decreases n, 1nat,
{
    lemma_stays(w, s);
    let scopes = crate::spine_cuts::scopes_at(n, known, s.p);
    let (steps, end, s1) = crate::spine_cuts::shrunk(n, s, w, scopes, 0);
    let cuts = crate::spine_cuts::bounds(steps, end);
    lemma_shrunk(n, s, w, scopes, 0);
    lemma_chain(s1, w, steps, cuts, scopes, (cuts.len() - 2) as nat, end);
    lemma_leads_on(
        w,
        s,
        s1,
        crate::spine_cuts::chain_made(
            s1,
            w,
            steps,
            cuts,
            scopes,
            (cuts.len() - 2) as nat,
            end,
        ).1,
    );
}

} // verus!
