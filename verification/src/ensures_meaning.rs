//! What bundles for postconditions show: a proposition whose obligations hold is true.

use crate::bundle_meaning::{Preconditions, Reading};
use crate::bundles::{Claim, Obligation, Proof};
use crate::cut_types::Known;
use crate::decompose_aborts::Stuck;
use crate::ir::{BinOp, Lit, Node};
use crate::meaning::{Env, Model};
use crate::program::WorldFunctions;
use crate::segments::{St, Whole};
use crate::substitution::Subst;
use crate::types::Name;
use vstd::prelude::*;

verus! {

/// Whether a proof shows a boolean value, on a way that is taken or not.
///
/// Nothing is shown of what is true. A leaf rests on an obligation whose claim has the
/// value. Both sides of a conjunction have proofs; so have both sides of a branch, each on
/// the way that the condition leads there.
pub open spec fn shows_value(
    q: Proof,
    v: bool,
    base: Env,
    obs: Seq<Obligation>,
    taken: bool,
    m: Model,
) -> bool
    decreases q,
{
    match q {
        Proof::Rfl => v,
        Proof::Leaf { ob } => crate::bundle_meaning::is_stated(obs, ob, base, m, taken)
            && match obs[ob as int].leaf {
            Claim::PropHolds(e) => crate::meaning::truth(crate::meaning::eval(e, base, m)) == v,
            _ => false,
        },
        Proof::AndBool(a, b) => exists|x: bool, y: bool| #[trigger]
            both_are(x, y) && v == (x && y) && shows_value(*a, x, base, obs, taken, m)
                && shows_value(*b, y, base, obs, taken, m),
        Proof::BIteBool(a, b) => exists|yes: bool, x: bool, y: bool| #[trigger]
            side_is(yes, x, y) && v == (if yes {
                x
            } else {
                y
            }) && shows_value(*a, x, base, obs, taken && yes, m) && shows_value(
                *b,
                y,
                base,
                obs,
                taken && !yes,
                m,
            ),
        _ => false,
    }
}

/// Two truth values.
pub open spec fn both_are(x: bool, y: bool) -> bool {
    true
}

/// The truth values of a condition and of both sides.
pub open spec fn side_is(yes: bool, x: bool, y: bool) -> bool {
    true
}

/// Whether a proof shows a proposition. Behind a binding it shows the body; each side of
/// a branch has a proof, the one where the condition is true on the way where it is, and
/// the other one where it is not.
pub open spec fn shows(
    q: Proof,
    n: Node,
    env: Env,
    base: Env,
    obs: Seq<Obligation>,
    taken: bool,
    m: Model,
) -> bool
    decreases n,
{
    match n {
        Node::Let { pattern, value, body } => shows(
            q,
            *body,
            crate::meaning::bound(env, pattern, crate::meaning::eval(*value, env, m)),
            base,
            obs,
            taken,
            m,
        ),
        Node::If { cond, then_branch, else_branch } if q is PIte => {
            let yes = crate::meaning::truth(crate::meaning::eval(*cond, env, m));
            match q {
                Proof::PIte(a, b) => shows(*a, *then_branch, env, base, obs, taken && yes, m)
                    && shows(*b, *else_branch, env, base, obs, taken && !yes, m),
                _ => false,
            }
        },
        _ => shows_value(
            q,
            crate::meaning::truth(crate::meaning::eval(n, env, m)),
            base,
            obs,
            taken,
            m,
        ),
    }
}

/// What a proof shows is true where the obligations hold.
proof fn lemma_value_shown(
    q: Proof,
    v: bool,
    base: Env,
    obs: Seq<Obligation>,
    m: Model,
    pre: Preconditions,
)
    requires
        shows_value(q, v, base, obs, true, m),
        crate::bundle_meaning::all_hold(obs, base, m, pre),
    ensures
        v,
    decreases q,
{
    match q {
        Proof::Leaf { ob } => {
            assert(crate::bundle_meaning::ob_holds(obs[ob as int], base, m, pre));
        },
        Proof::AndBool(a, b) => {
            let (x, y) = choose|x: bool, y: bool| #[trigger]
                both_are(x, y) && v == (x && y) && shows_value(*a, x, base, obs, true, m)
                    && shows_value(*b, y, base, obs, true, m);
            lemma_value_shown(*a, x, base, obs, m, pre);
            lemma_value_shown(*b, y, base, obs, m, pre);
        },
        Proof::BIteBool(a, b) => {
            let (yes, x, y) = choose|yes: bool, x: bool, y: bool| #[trigger]
                side_is(yes, x, y) && v == (if yes {
                    x
                } else {
                    y
                }) && shows_value(*a, x, base, obs, true && yes, m) && shows_value(
                    *b,
                    y,
                    base,
                    obs,
                    true && !yes,
                    m,
                );
            if yes {
                lemma_value_shown(*a, x, base, obs, m, pre);
            } else {
                lemma_value_shown(*b, y, base, obs, m, pre);
            }
        },
        _ => {},
    }
}

/// A proposition that a proof shows is true where the obligations hold.
pub proof fn law_a_proof_shows_the_proposition(
    q: Proof,
    n: Node,
    env: Env,
    base: Env,
    obs: Seq<Obligation>,
    m: Model,
    pre: Preconditions,
)
    requires
        shows(q, n, env, base, obs, true, m),
        crate::bundle_meaning::all_hold(obs, base, m, pre),
    ensures
        crate::meaning::truth(crate::meaning::eval(n, env, m)),
    decreases n,
{
    match n {
        Node::Let { pattern, value, body } => {
            let inner = crate::meaning::bound(env, pattern, crate::meaning::eval(*value, env, m));
            law_a_proof_shows_the_proposition(q, *body, inner, base, obs, m, pre);
        },
        Node::If { cond, then_branch, else_branch } if q is PIte => {
            if let Proof::PIte(a, b) = q {
                if crate::meaning::truth(crate::meaning::eval(*cond, env, m)) {
                    law_a_proof_shows_the_proposition(*a, *then_branch, env, base, obs, m, pre);
                } else {
                    law_a_proof_shows_the_proposition(*b, *else_branch, env, base, obs, m, pre);
                }
            }
        },
        _ => {
            lemma_value_shown(
                q,
                crate::meaning::truth(crate::meaning::eval(n, env, m)),
                base,
                obs,
                m,
                pre,
            );
        },
    }
}

/// An obligation of a proof that shows a value holds where the value is true.
proof fn lemma_value_needed(
    q: Proof,
    v: bool,
    base: Env,
    obs: Seq<Obligation>,
    taken: bool,
    m: Model,
    pre: Preconditions,
    i: nat,
)
    requires
        shows_value(q, v, base, obs, taken, m),
        taken ==> v,
        q.uses(i),
        i < obs.len(),
    ensures
        crate::bundle_meaning::ob_holds(obs[i as int], base, m, pre),
    decreases q,
{
    match q {
        Proof::AndBool(a, b) => {
            let (x, y) = choose|x: bool, y: bool| #[trigger]
                both_are(x, y) && v == (x && y) && shows_value(*a, x, base, obs, taken, m)
                    && shows_value(*b, y, base, obs, taken, m);
            if a.uses(i) {
                lemma_value_needed(*a, x, base, obs, taken, m, pre, i);
            } else {
                lemma_value_needed(*b, y, base, obs, taken, m, pre, i);
            }
        },
        Proof::BIteBool(a, b) => {
            let (yes, x, y) = choose|yes: bool, x: bool, y: bool| #[trigger]
                side_is(yes, x, y) && v == (if yes {
                    x
                } else {
                    y
                }) && shows_value(*a, x, base, obs, taken && yes, m) && shows_value(
                    *b,
                    y,
                    base,
                    obs,
                    taken && !yes,
                    m,
                );
            if a.uses(i) {
                lemma_value_needed(*a, x, base, obs, taken && yes, m, pre, i);
            } else {
                lemma_value_needed(*b, y, base, obs, taken && !yes, m, pre, i);
            }
        },
        _ => {},
    }
}

/// An obligation of a proof that shows a proposition holds where the proposition is true:
/// no more is asked than has to hold.
pub proof fn law_a_proof_of_a_proposition_asks_for_no_more(
    q: Proof,
    n: Node,
    env: Env,
    base: Env,
    obs: Seq<Obligation>,
    taken: bool,
    m: Model,
    pre: Preconditions,
    i: nat,
)
    requires
        shows(q, n, env, base, obs, taken, m),
        taken ==> crate::meaning::truth(crate::meaning::eval(n, env, m)),
        q.uses(i),
        i < obs.len(),
    ensures
        crate::bundle_meaning::ob_holds(obs[i as int], base, m, pre),
    decreases n,
{
    match n {
        Node::Let { pattern, value, body } => {
            let inner = crate::meaning::bound(env, pattern, crate::meaning::eval(*value, env, m));
            law_a_proof_of_a_proposition_asks_for_no_more(
                q,
                *body,
                inner,
                base,
                obs,
                taken,
                m,
                pre,
                i,
            );
        },
        Node::If { cond, then_branch, else_branch } if q is PIte => {
            if let Proof::PIte(a, b) = q {
                let yes = crate::meaning::truth(crate::meaning::eval(*cond, env, m));
                if a.uses(i) {
                    law_a_proof_of_a_proposition_asks_for_no_more(
                        *a,
                        *then_branch,
                        env,
                        base,
                        obs,
                        taken && yes,
                        m,
                        pre,
                        i,
                    );
                } else {
                    law_a_proof_of_a_proposition_asks_for_no_more(
                        *b,
                        *else_branch,
                        env,
                        base,
                        obs,
                        taken && !yes,
                        m,
                        pre,
                        i,
                    );
                }
            }
        },
        _ => {
            lemma_value_needed(
                q,
                crate::meaning::truth(crate::meaning::eval(n, env, m)),
                base,
                obs,
                taken,
                m,
                pre,
                i,
            );
        },
    }
}

/// Whether every name that is bound in an expression is another one than those around it.
pub open spec fn binds_anew(n: Node, names: spec_fn(Name) -> bool) -> bool
    decreases n,
{
    proof {
        n.lemma_kids_decrease();
    }
    &&& forall|i: int, y: Name| #[trigger] n.binds(i, y) && y != "_"@ ==> !names(y)
    &&& forall|i: int|
        0 <= i < n.kids().len() ==> binds_anew(
            #[trigger] n.kids()[i],
            |y: Name| names(y) || n.binds(i, y),
        )
}

/// What binds anew binds no name around it.
proof fn lemma_binds_anew(n: Node, names: spec_fn(Name) -> bool, y: Name)
    requires
        binds_anew(n, names),
        crate::meaning::binds_in(n, y),
        y != "_"@,
    ensures
        !names(y),
    decreases n,
{
    n.lemma_kids_decrease();
    let t = |k: Node| exists|i: int| k.binds(i, y);
    if t(n) {
        let i = choose|i: int| n.binds(i, y);
        assert(n.binds(i, y));
    } else {
        assert(n.any_kid(t));
        let i = choose|i: int| 0 <= i < n.kids().len() && (#[trigger] n.kids()[i]).any(t);
        assert(crate::meaning::binds_in(n.kids()[i], y));
        lemma_binds_anew(n.kids()[i], |z: Name| names(z) || n.binds(i, z), y);
    }
}

/// Whether every variable that stands for something can be written out.
pub open spec fn all_written(s: Subst) -> bool {
    forall|x: Name| (#[trigger] crate::assoc::found(s, x)) != Some(None::<Node>)
}

/// Taking an expression from behind its bindings keeps its value.
proof fn lemma_unwrapped(
    n: Node,
    s: Subst,
    env: Env,
    base: Env,
    m: Model,
    names: spec_fn(Name) -> bool,
)
    requires
        crate::meaning::takes_fields(m),
        crate::written_meaning::stands_for(s, env, base, m),
        crate::written_meaning::told_among(s, names),
        all_written(s),
        binds_anew(n, names),
        !n.uses("_"@),
        forall|x: Name| #[trigger] n.free(x) ==> names(x),
    ensures
        crate::meaning::eval(crate::decompose_ensures::unwrapped(n, s), base, m)
            == crate::meaning::eval(n, env, m),
    decreases n,
{
    match n {
        Node::Let { pattern, value, body } if pattern.len() == 1 => {
            let x = pattern[0];
            assert(n.kids()[0] == *value && n.kids()[1] == *body);
            assert(pattern.contains(x));
            assert(n.binds(1, x));
            let none_here = |y: Name| names(y) || n.binds(0, y);
            assert(binds_anew(n.kids()[0], none_here));
            assert(none_here =~= names);
            crate::written_meaning::lemma_unused_in_part(n, 0, "_"@);
            crate::written_meaning::lemma_unused_in_part(n, 1, "_"@);
            assert forall|z: Name| #[trigger] value.free(z) implies names(z) by {
                assert(n.kids()[0].free(z) && !n.binds(0, z));
                assert(n.free_in_kid(z));
                assert(n.free(z));
            }
            lemma_inlined(*value, s, env, base, m, names);
            let v = crate::substitution::inlined(*value, s);
            let s1 = crate::assoc::put(s, x, Some(v));
            let more = |y: Name| names(y) || n.binds(1, y);
            let inner = crate::meaning::bound(
                env,
                pattern,
                crate::meaning::eval(*value, env, m),
            );
            assert forall|y: Name|
                y != "_"@ ==> match #[trigger] crate::assoc::found(s1, y) {
                    Some(Some(e)) => inner(y) == crate::meaning::eval(e, base, m),
                    Some(None) => true,
                    None => inner(y) == base(y),
                } by {
                crate::written_meaning::lemma_found_put(s, x, Some(v), y);
                assert(y != "_"@ ==> match crate::assoc::found(s, y) {
                    Some(Some(e)) => env(y) == crate::meaning::eval(e, base, m),
                    Some(None) => true,
                    None => env(y) == base(y),
                });
            }
            assert forall|y: Name| (#[trigger] crate::assoc::found(s1, y)) != Some(
                None::<Node>,
            ) by {
                crate::written_meaning::lemma_found_put(s, x, Some(v), y);
                assert(crate::assoc::found(s, y) != Some(None::<Node>));
            }
            assert forall|y: Name| (#[trigger] crate::assoc::found(s1, y)) is Some implies more(
                y,
            ) by {
                crate::written_meaning::lemma_found_put(s, x, Some(v), y);
                if y != x {
                    assert(crate::assoc::found(s, y) is Some);
                }
            }
            assert forall|z: Name| #[trigger] crate::written_meaning::in_content(
                s1,
                z,
            ) implies more(z) by {
                let y = choose|y: Name|
                    match #[trigger] crate::assoc::found(s1, y) {
                        Some(Some(c)) => c.free(z),
                        _ => false,
                    };
                crate::written_meaning::lemma_found_put(s, x, Some(v), y);
                if y == x {
                    let f = |k: Node| crate::written_meaning::put_in(k, s, false);
                    let g = |k: Node| crate::substitution::written_out(k, s);
                    assert(f =~= g);
                    crate::written_meaning::lemma_put_in_free(*value, s, false, z);
                    if value.free(z) {
                        assert(names(z));
                    }
                } else {
                    assert(crate::assoc::found(s, y) == crate::assoc::found(s1, y));
                    assert(crate::written_meaning::in_content(s, z));
                }
            }
            assert forall|z: Name| #[trigger] body.free(z) implies more(z) by {
                if !n.binds(1, z) {
                    assert(n.kids()[1].free(z));
                    assert(n.free_in_kid(z));
                    assert(n.free(z));
                }
            }
            assert(binds_anew(n.kids()[1], more));
            lemma_unwrapped(*body, s1, inner, base, m, more);
        },
        _ => {
            lemma_inlined(n, s, env, base, m, names);
            crate::written_meaning::law_taking_fields_keeps_values(
                crate::substitution::inlined(n, s),
                base,
                m,
            );
        },
    }
}

/// Putting values in the place of variables keeps the value, where nothing is captured.
proof fn lemma_inlined(
    n: Node,
    s: Subst,
    env: Env,
    base: Env,
    m: Model,
    names: spec_fn(Name) -> bool,
)
    requires
        crate::meaning::takes_fields(m),
        crate::written_meaning::stands_for(s, env, base, m),
        crate::written_meaning::told_among(s, names),
        all_written(s),
        binds_anew(n, names),
        !n.uses("_"@),
    ensures
        crate::meaning::eval(crate::substitution::inlined(n, s), base, m) == crate::meaning::eval(
            n,
            env,
            m,
        ),
{
    assert forall|y: Name| #[trigger] crate::meaning::binds_in(n, y) && y
        != "_"@ implies crate::assoc::found(s, y) is None && !crate::written_meaning::in_content(
        s,
        y,
    ) by {
        lemma_binds_anew(n, names, y);
    }
    assert(!crate::substitution::mentions_opaque(n, s));
    crate::written_meaning::lemma_put_in(n, s, env, base, m, false);
    let f = |k: Node| crate::written_meaning::put_in(k, s, false);
    let g = |k: Node| crate::substitution::written_out(k, s);
    assert(f =~= g);
}

/// Whether an expression hides none of its names: it binds no name that is free in it, nor
/// one inside a binding of the same name; and it reads nothing that is thrown away.
pub open spec fn hides_nothing(e: Node) -> bool {
    !e.uses("_"@) && binds_anew(e, |x: Name| e.free(x))
}

/// An expression means the same without its bindings of one name, their values written in
/// the place of the names.
pub proof fn law_unwrapping_keeps_the_value(e: Node, env: Env, m: Model)
    requires
        crate::meaning::takes_fields(m),
        hides_nothing(e),
    ensures
        crate::meaning::eval(crate::decompose_ensures::unwrapped(e, Seq::empty()), env, m)
            == crate::meaning::eval(e, env, m),
{
    let none: Subst = Seq::empty();
    let names = |x: Name| e.free(x);
    assert forall|x: Name| (#[trigger] crate::assoc::found(none, x)) is None by {}
    assert forall|x: Name| #[trigger] crate::written_meaning::in_content(none, x) implies names(
        x,
    ) by {
        crate::written_meaning::lemma_no_content(x);
    }
    lemma_unwrapped(e, none, env, env, m, names);
}

/// Whether no name is mistaken for another while a boolean expression is written out,
/// taken from behind its bindings and taken apart, as deep as given: what it binds stands
/// in nothing that is written out, what is written out hides nothing, and the parts
/// mention no variable that is still to be written out.
pub open spec fn parts_stay_apart(e: Node, subst: Subst, depth: nat) -> bool
    decreases depth,
{
    &&& !e.uses("_"@)
    &&& crate::written_meaning::clear_of(e, subst)
    &&& crate::substitution::substituted(e, subst) matches Some(out) ==> {
        &&& hides_nothing(out)
        &&& depth > 0 ==> match crate::decompose_ensures::unwrapped(out, Seq::empty()) {
            Node::BinOp { op: BinOp::And, lhs, rhs } => {
                &&& is_done(*lhs, subst)
                &&& is_done(*rhs, subst)
                &&& parts_stay_apart(*lhs, subst, (depth - 1) as nat)
                &&& parts_stay_apart(*rhs, subst, (depth - 1) as nat)
            },
            Node::If { then_branch, else_branch, .. } => {
                &&& is_done(*then_branch, subst)
                &&& is_done(*else_branch, subst)
                &&& parts_stay_apart(*then_branch, subst, (depth - 1) as nat)
                &&& parts_stay_apart(*else_branch, subst, (depth - 1) as nat)
            },
            _ => true,
        }
    }
}

/// Whether an expression mentions no variable that is still to be written out.
pub open spec fn is_done(e: Node, subst: Subst) -> bool {
    forall|x: Name| #[trigger] e.free(x) ==> crate::assoc::found(subst, x) is None
}

/// Whether no name is bound on the way through a proposition that would be mistaken for
/// another.
pub open spec fn is_tidy_proposition(
    n: Node,
    subst: Subst,
    names: spec_fn(Name) -> bool,
    w: Whole,
    world: Option<WorldFunctions>,
    depth: nat,
) -> bool
    decreases n,
{
    match n {
        Node::Let { pattern, value, body } => {
            &&& crate::written_meaning::among(*value, names)
            &&& forall|x: Name| #[trigger]
                pattern.contains(x) ==> !crate::segments::is_proof_name(w, x)
            &&& is_tidy_proposition(
                *body,
                crate::obligations::bound_values(n, false, world, pattern, *value, subst).0,
                crate::written_meaning::more_names(names, pattern),
                w,
                world,
                depth,
            )
        },
        Node::If { cond, then_branch, else_branch } => {
            &&& crate::written_meaning::among(*cond, names)
            &&& is_tidy_proposition(*then_branch, subst, names, w, world, depth)
            &&& is_tidy_proposition(*else_branch, subst, names, w, world, depth)
        },
        Node::ToProp(inner) => parts_stay_apart(*inner, subst, depth),
        _ => crate::written_meaning::among(n, names),
    }
}

/// What the walk over a proposition is begun with.
pub open spec fn is_ready(
    n: Node,
    s: St,
    subst: Subst,
    env: Env,
    c: Reading,
    names: spec_fn(Name) -> bool,
    depth: nat,
) -> bool {
    &&& crate::bundle_meaning::is_fair(c)
    &&& crate::bundle_meaning::is_told(subst, env, c)
    &&& crate::written_meaning::told_among(subst, names)
    &&& is_tidy_proposition(n, subst, names, c.w, c.end.world_functions, depth)
    &&& c.from <= s.p.functions.len()
}

/// A leaf that has the value of a proposition shows it.
proof fn lemma_leaf_shows(q: Proof, n: Node, env: Env, c: Reading, taken: bool)
    requires
        q is Leaf,
        shows_value(
            q,
            crate::meaning::truth(crate::meaning::eval(n, env, c.m)),
            c.base,
            c.obs,
            taken,
            c.m,
        ),
    ensures
        shows(q, n, env, c.base, c.obs, taken, c.m),
    decreases n,
{
    if let Node::Let { pattern, value, body } = n {
        lemma_leaf_shows(
            q,
            *body,
            crate::meaning::bound(env, pattern, crate::meaning::eval(*value, env, c.m)),
            c,
            taken,
        );
    }
}

/// A leaf about a segment shows the proposition.
proof fn lemma_opaque_shows(
    s: St,
    tail: Node,
    known: Known,
    subst: Subst,
    path: Seq<(Node, bool)>,
    tail_env: Env,
    n: Node,
    env: Env,
    c: Reading,
)
    requires
        crate::bundle_meaning::is_fair(c),
        crate::bundle_meaning::is_told(subst, tail_env, c),
        c.from <= s.p.functions.len(),
        crate::meaning::eval(tail, tail_env, c.m) == crate::meaning::eval(n, env, c.m),
        ({
            let (q, t) = crate::obligations::opaque_made(s, c.w, tail, known, subst, path, true);
            q is Some && crate::bundle_meaning::is_within(t, c)
        }),
    ensures
        ({
            let q = crate::obligations::opaque_made(s, c.w, tail, known, subst, path, true).0;
            shows(
                q->0,
                n,
                env,
                c.base,
                c.obs,
                crate::bundle_meaning::path_holds(path, c.base, c.m),
                c.m,
            )
        }),
{
    crate::bundle_meaning::lemma_opaque_means(s, tail, known, subst, path, true, tail_env, c);
    let q = crate::obligations::opaque_made(s, c.w, tail, known, subst, path, true).0;
    lemma_leaf_shows(
        q->0,
        n,
        env,
        c,
        crate::bundle_meaning::path_holds(path, c.base, c.m),
    );
}

/// A leaf about an expression has the value of the expression.
proof fn lemma_made_leaf_shows(s: St, e: Node, path: Seq<(Node, bool)>, v: bool, c: Reading)
    requires
        crate::meaning::truth(crate::meaning::eval(e, c.base, c.m)) == v,
        ({
            let (q, t) = crate::decompose_aborts::leaf_made(s, c.w, path, Claim::PropHolds(e));
            q is Some && crate::bundle_meaning::is_within(t, c)
        }),
    ensures
        ({
            let q = crate::decompose_aborts::leaf_made(s, c.w, path, Claim::PropHolds(e)).0;
            shows_value(
                q->0,
                v,
                c.base,
                c.obs,
                crate::bundle_meaning::path_holds(path, c.base, c.m),
                c.m,
            ) && q->0 is Leaf
        }),
{
    crate::bundle_meaning::lemma_ob_made(s, c.w, path, Claim::PropHolds(e));
    let (ob, t) = crate::obligations::ob_made(s, c.w, path, Claim::PropHolds(e));
    assert(c.obs[ob->0 as int] == t.obs[ob->0 as int]);
}

/// The proof of the walk over a proposition shows it.
proof fn lemma_shown_shows(
    n: Node,
    s: St,
    known: Known,
    subst: Subst,
    path: Seq<(Node, bool)>,
    depth: nat,
    env: Env,
    c: Reading,
    names: spec_fn(Name) -> bool,
)
    requires
        is_ready(n, s, subst, env, c, names, depth),
        ({
            let (q, t) = crate::decompose_ensures::shown(n, s, c.w, known, subst, path, depth);
            q is Some && crate::bundle_meaning::is_within(t, c)
        }),
    ensures
        ({
            let q = crate::decompose_ensures::shown(n, s, c.w, known, subst, path, depth).0;
            shows(
                q->0,
                n,
                env,
                c.base,
                c.obs,
                crate::bundle_meaning::path_holds(path, c.base, c.m),
                c.m,
            )
        }),
    decreases 4 * depth + 3, n, 2nat,
{
    if n is Let {
        lemma_on_shows(n, s, known, subst, path, None, depth, env, env, c, names);
    } else {
        lemma_end_shows(n, s, known, subst, path, depth, env, c, names);
    }
}

/// The proof of the walk over what is left of a proposition shows it.
pub proof fn lemma_on_shows(
    n: Node,
    s: St,
    known: Known,
    subst: Subst,
    path: Seq<(Node, bool)>,
    stuck: Option<Stuck>,
    depth: nat,
    env: Env,
    stuck_env: Env,
    c: Reading,
    names: spec_fn(Name) -> bool,
)
    requires
        is_ready(n, s, subst, env, c, names, depth),
        stuck matches Some(k) ==> crate::bundle_meaning::is_told(k.subst, stuck_env, c)
            && crate::meaning::eval(k.tail, stuck_env, c.m) == crate::meaning::eval(n, env, c.m),
        ({
            let (q, t) = crate::decompose_ensures::shown_on(
                n,
                s,
                c.w,
                known,
                subst,
                path,
                stuck,
                depth,
            );
            q is Some && crate::bundle_meaning::is_within(t, c)
        }),
    ensures
        ({
            let q = crate::decompose_ensures::shown_on(
                n,
                s,
                c.w,
                known,
                subst,
                path,
                stuck,
                depth,
            ).0;
            shows(
                q->0,
                n,
                env,
                c.base,
                c.obs,
                crate::bundle_meaning::path_holds(path, c.base, c.m),
                c.m,
            )
        }),
    decreases 4 * depth + 3, n, 1nat,
{
    let t = crate::decompose_ensures::shown_on(n, s, c.w, known, subst, path, stuck, depth).1;
    crate::splitting::lemma_shown_on(n, s, c.w, known, subst, path, stuck, depth);
    crate::bundle_meaning::lemma_within(s, t, c);
    match n {
        Node::Let { pattern, value, body } => {
            let (subst1, bad) = crate::obligations::bound_values(
                n,
                false,
                s.p.world_functions,
                pattern,
                *value,
                subst,
            );
            let fresh = stuck is None && bad;
            let stuck1 = if fresh {
                Some(Stuck { tail: n, known, subst, behind: 0 })
            } else {
                stuck
            };
            let known1 = crate::cut_types::behind(
                known,
                pattern,
                crate::cut_types::told_type(*value, known, s.p),
            );
            let inner = crate::meaning::bound(
                env,
                pattern,
                crate::meaning::eval(*value, env, c.m),
            );
            let stuck_env1 = if fresh {
                env
            } else {
                stuck_env
            };
            crate::written_meaning::lemma_bound_values(
                n,
                false,
                s.p.world_functions,
                pattern,
                *value,
                subst,
                env,
                c.base,
                c.m,
                names,
            );
            let more = crate::written_meaning::more_names(names, pattern);
            assert(crate::bundle_meaning::is_told(subst1, inner, c)) by {
                assert forall|h: Name| crate::segments::is_proof_name(c.w, h) implies (
                #[trigger] crate::assoc::found(subst1, h)) is None by {
                    assert(!pattern.contains(h));
                    assert(crate::assoc::found(subst, h) is None);
                }
            }
            lemma_on_shows(
                *body,
                s,
                known1,
                subst1,
                path,
                stuck1,
                depth,
                inner,
                stuck_env1,
                c,
                more,
            );
        },
        _ => {
            let (proof_, s1) = crate::decompose_ensures::shown_end(
                n,
                s,
                c.w,
                known,
                subst,
                path,
                depth,
            );
            crate::splitting::lemma_shown_end(n, s, c.w, known, subst, path, depth);
            crate::bundle_meaning::lemma_from(c.w, s, s1, c.from);
            match proof_ {
                Some(q) => {
                    lemma_end_shows(n, s, known, subst, path, depth, env, c, names);
                },
                None => match stuck {
                    Some(k) => {
                        lemma_opaque_shows(
                            s1,
                            k.tail,
                            k.known,
                            k.subst,
                            path,
                            stuck_env,
                            n,
                            env,
                            c,
                        );
                    },
                    None => {
                        lemma_opaque_shows(s1, n, known, subst, path, env, n, env, c);
                    },
                },
            }
        },
    }
}

/// The values that variables have where those that stand for something have its value.
pub open spec fn own_values(subst: Subst, base: Env, m: Model) -> Env {
    |x: Name|
        match crate::assoc::found(subst, x) {
            Some(Some(e)) => crate::meaning::eval(e, base, m),
            _ => base(x),
        }
}

/// What mentions no variable that is still to be written out has the value that it has
/// over the parameters.
proof fn lemma_own_values(e: Node, subst: Subst, c: Reading)
    requires
        is_done(e, subst),
    ensures
        crate::meaning::eval(e, own_values(subst, c.base, c.m), c.m) == crate::meaning::eval(
            e,
            c.base,
            c.m,
        ),
{
    let own = own_values(subst, c.base, c.m);
    assert(crate::meaning::agree(e, own, c.base)) by {
        assert forall|x: Name| #[trigger] e.free(x) && x != "_"@ implies own(x) == (c.base)(x) by {
            assert(crate::assoc::found(subst, x) is None);
        }
    }
    crate::meaning::lemma_agree(e, own, c.base, c.m);
}

/// The proofs of two boolean expressions show their values.
proof fn lemma_two_show(
    a: Node,
    b: Node,
    s: St,
    known: Known,
    subst: Subst,
    on_a: Seq<(Node, bool)>,
    on_b: Seq<(Node, bool)>,
    depth: nat,
    env: Env,
    c: Reading,
    names: spec_fn(Name) -> bool,
)
    requires
        crate::bundle_meaning::is_fair(c),
        crate::bundle_meaning::is_told(subst, env, c),
        crate::written_meaning::told_among(subst, names),
        is_done(a, subst),
        is_done(b, subst),
        parts_stay_apart(a, subst, depth),
        parts_stay_apart(b, subst, depth),
        c.from <= s.p.functions.len(),
        ({
            let (qs, t) = crate::decompose_ensures::both_shown(
                Node::ToProp(Box::new(a)),
                Node::ToProp(Box::new(b)),
                s,
                c.w,
                known,
                subst,
                on_a,
                on_b,
                depth,
            );
            qs is Some && crate::bundle_meaning::is_within(t, c)
        }),
    ensures
        ({
            let qs = crate::decompose_ensures::both_shown(
                Node::ToProp(Box::new(a)),
                Node::ToProp(Box::new(b)),
                s,
                c.w,
                known,
                subst,
                on_a,
                on_b,
                depth,
            ).0->0;
            &&& shows_value(
                qs.0,
                crate::meaning::truth(crate::meaning::eval(a, c.base, c.m)),
                c.base,
                c.obs,
                crate::bundle_meaning::path_holds(on_a, c.base, c.m),
                c.m,
            )
            &&& shows_value(
                qs.1,
                crate::meaning::truth(crate::meaning::eval(b, c.base, c.m)),
                c.base,
                c.obs,
                crate::bundle_meaning::path_holds(on_b, c.base, c.m),
                c.m,
            )
        }),
    decreases 4 * depth + 4, Node::OptionNone, 0nat,
{
    let (x, y) = (Node::ToProp(Box::new(a)), Node::ToProp(Box::new(b)));
    let own = own_values(subst, c.base, c.m);
    assert(crate::bundle_meaning::is_told(subst, own, c)) by {
        assert forall|z: Name|
            z != "_"@ ==> match #[trigger] crate::assoc::found(subst, z) {
                Some(Some(e)) => own(z) == crate::meaning::eval(e, c.base, c.m),
                Some(None) => true,
                None => own(z) == (c.base)(z),
            } by {}
    }
    let s1 = crate::decompose_ensures::shown(x, s, c.w, known, subst, on_a, depth).1;
    let t = crate::decompose_ensures::both_shown(
        x,
        y,
        s,
        c.w,
        known,
        subst,
        on_a,
        on_b,
        depth,
    ).1;
    crate::splitting::law_ensures_walk_only_adds(x, s, c.w, known, subst, on_a, depth);
    crate::bundle_meaning::lemma_from(c.w, s, s1, c.from);
    crate::splitting::law_ensures_walk_only_adds(y, s1, c.w, known, subst, on_b, depth);
    crate::bundle_meaning::lemma_within(s1, t, c);
    lemma_shown_shows(x, s, known, subst, on_a, depth, own, c, names);
    lemma_shown_shows(y, s1, known, subst, on_b, depth, own, c, names);
    lemma_own_values(a, subst, c);
    lemma_own_values(b, subst, c);
}

/// The proof of a boolean expression that is taken apart shows its value.
proof fn lemma_truth_shows(
    e: Node,
    s: St,
    known: Known,
    subst: Subst,
    path: Seq<(Node, bool)>,
    depth: nat,
    env: Env,
    c: Reading,
    names: spec_fn(Name) -> bool,
)
    requires
        crate::bundle_meaning::is_fair(c),
        crate::bundle_meaning::is_told(subst, env, c),
        crate::written_meaning::told_among(subst, names),
        c.from <= s.p.functions.len(),
        depth > 0 ==> match e {
            Node::BinOp { op: BinOp::And, lhs, rhs } => {
                &&& is_done(*lhs, subst)
                &&& is_done(*rhs, subst)
                &&& parts_stay_apart(*lhs, subst, (depth - 1) as nat)
                &&& parts_stay_apart(*rhs, subst, (depth - 1) as nat)
            },
            Node::If { then_branch, else_branch, .. } => {
                &&& is_done(*then_branch, subst)
                &&& is_done(*else_branch, subst)
                &&& parts_stay_apart(*then_branch, subst, (depth - 1) as nat)
                &&& parts_stay_apart(*else_branch, subst, (depth - 1) as nat)
            },
            _ => true,
        },
        ({
            let (q, t) = crate::decompose_ensures::truth_shown(
                e,
                s,
                c.w,
                known,
                subst,
                path,
                depth,
            );
            q is Some && crate::bundle_meaning::is_within(t, c)
        }),
    ensures
        ({
            let q = crate::decompose_ensures::truth_shown(
                e,
                s,
                c.w,
                known,
                subst,
                path,
                depth,
            ).0;
            shows_value(
                q->0,
                crate::meaning::truth(crate::meaning::eval(e, c.base, c.m)),
                c.base,
                c.obs,
                crate::bundle_meaning::path_holds(path, c.base, c.m),
                c.m,
            )
        }),
    decreases 4 * depth + 2, Node::OptionNone, 0nat,
{
    match e {
        Node::Const(Lit::Bool(true)) => {},
        Node::BinOp { op: BinOp::And, lhs, rhs } if depth > 0 => {
            lemma_two_show(
                *lhs,
                *rhs,
                s,
                known,
                subst,
                path,
                path,
                (depth - 1) as nat,
                env,
                c,
                names,
            );
            let x = crate::meaning::truth(crate::meaning::eval(*lhs, c.base, c.m));
            let y = crate::meaning::truth(crate::meaning::eval(*rhs, c.base, c.m));
            assert(both_are(x, y));
        },
        Node::If { cond, then_branch, else_branch } if depth > 0 => {
            crate::bundle_meaning::lemma_path_push(path, *cond, true, c.base, c.m);
            crate::bundle_meaning::lemma_path_push(path, *cond, false, c.base, c.m);
            lemma_two_show(
                *then_branch,
                *else_branch,
                s,
                known,
                subst,
                path.push((*cond, true)),
                path.push((*cond, false)),
                (depth - 1) as nat,
                env,
                c,
                names,
            );
            let yes = crate::meaning::truth(crate::meaning::eval(*cond, c.base, c.m));
            let x = crate::meaning::truth(crate::meaning::eval(*then_branch, c.base, c.m));
            let y = crate::meaning::truth(crate::meaning::eval(*else_branch, c.base, c.m));
            assert(side_is(yes, x, y));
        },
        _ => {
            let whole = Node::ToProp(Box::new(e));
            lemma_made_leaf_shows(
                s,
                whole,
                path,
                crate::meaning::truth(crate::meaning::eval(e, c.base, c.m)),
                c,
            );
        },
    }
}

/// The proof of a proposition that is no binding shows it.
proof fn lemma_end_shows(
    n: Node,
    s: St,
    known: Known,
    subst: Subst,
    path: Seq<(Node, bool)>,
    depth: nat,
    env: Env,
    c: Reading,
    names: spec_fn(Name) -> bool,
)
    requires
        is_ready(n, s, subst, env, c, names, depth),
        !(n is Let),
        ({
            let (q, t) = crate::decompose_ensures::shown_end(n, s, c.w, known, subst, path, depth);
            q is Some && crate::bundle_meaning::is_within(t, c)
        }),
    ensures
        ({
            let q = crate::decompose_ensures::shown_end(n, s, c.w, known, subst, path, depth).0;
            shows(
                q->0,
                n,
                env,
                c.base,
                c.obs,
                crate::bundle_meaning::path_holds(path, c.base, c.m),
                c.m,
            )
        }),
    decreases 4 * depth + 3, n, 0nat,
{
    let t = crate::decompose_ensures::shown_end(n, s, c.w, known, subst, path, depth).1;
    crate::splitting::lemma_shown_end(n, s, c.w, known, subst, path, depth);
    crate::bundle_meaning::lemma_within(s, t, c);
    let taken = crate::bundle_meaning::path_holds(path, c.base, c.m);
    if crate::obligations::has_abort(n) {
        lemma_opaque_shows(s, n, known, subst, path, env, n, env, c);
    } else {
        match n {
            Node::ToProp(inner) => {
                match crate::substitution::substituted(*inner, subst) {
                    Some(e) => {
                        crate::written_meaning::law_writing_out_keeps_values(
                            *inner,
                            subst,
                            env,
                            c.base,
                            c.m,
                        );
                        law_unwrapping_keeps_the_value(e, c.base, c.m);
                        lemma_truth_shows(
                            crate::decompose_ensures::unwrapped(e, Seq::empty()),
                            s,
                            known,
                            subst,
                            path,
                            depth,
                            env,
                            c,
                            names,
                        );
                    },
                    None => {
                        lemma_opaque_shows(s, n, known, subst, path, env, n, env, c);
                    },
                }
            },
            Node::If { cond, then_branch, else_branch } => {
                let sc = crate::substitution::substituted(*cond, subst);
                if crate::obligations::is_dependent(s.p, *then_branch, *else_branch)
                    || crate::cut_types::told_type(*cond, known, s.p) != Some(
                    crate::types::Ty::Bool,
                ) || sc is None {
                    lemma_opaque_shows(s, n, known, subst, path, env, n, env, c);
                } else {
                    crate::written_meaning::lemma_written(*cond, subst, env, c.base, c.m, names);
                    let on = path.push((sc->0, true));
                    let off = path.push((sc->0, false));
                    crate::bundle_meaning::lemma_path_push(path, sc->0, true, c.base, c.m);
                    crate::bundle_meaning::lemma_path_push(path, sc->0, false, c.base, c.m);
                    let s1 = crate::decompose_ensures::shown(
                        *then_branch,
                        s,
                        c.w,
                        known,
                        subst,
                        on,
                        depth,
                    ).1;
                    crate::splitting::law_ensures_walk_only_adds(
                        *then_branch,
                        s,
                        c.w,
                        known,
                        subst,
                        on,
                        depth,
                    );
                    crate::bundle_meaning::lemma_from(c.w, s, s1, c.from);
                    crate::splitting::law_ensures_walk_only_adds(
                        *else_branch,
                        s1,
                        c.w,
                        known,
                        subst,
                        off,
                        depth,
                    );
                    crate::bundle_meaning::lemma_within(s1, t, c);
                    lemma_shown_shows(
                        *then_branch,
                        s,
                        known,
                        subst,
                        on,
                        depth,
                        env,
                        c,
                        names,
                    );
                    lemma_shown_shows(
                        *else_branch,
                        s1,
                        known,
                        subst,
                        off,
                        depth,
                        env,
                        c,
                        names,
                    );
                }
            },
            _ => {
                crate::written_meaning::lemma_written(n, subst, env, c.base, c.m, names);
                match crate::substitution::substituted(n, subst) {
                    Some(e) => {
                        lemma_made_leaf_shows(
                            s,
                            e,
                            path,
                            crate::meaning::truth(crate::meaning::eval(n, env, c.m)),
                            c,
                        );
                    },
                    None => {
                        lemma_opaque_shows(s, n, known, subst, path, env, n, env, c);
                    },
                }
            },
        }
    }
}

/// A bundle for a postcondition is sound. The proof of the walk over the proposition shows
/// it, whatever the values of its variables are: the proof for the side of a branch on
/// which the condition is true rests on obligations that have the condition as a premise,
/// and that for the other side on such as have it as a premise that is false. Where all
/// obligations hold, the proposition is true; and where it is true, the obligations that
/// the proof rests on hold.
pub proof fn law_an_ensures_bundle_is_sound(
    n: Node,
    s: St,
    w: Whole,
    known: Known,
    depth: nat,
    env: Env,
    m: Model,
    names: spec_fn(Name) -> bool,
    pre: Preconditions,
)
    requires
        is_tidy_proposition(n, Seq::empty(), names, w, s.p.world_functions, depth),
        crate::decompose_ensures::shown(n, s, w, known, Seq::empty(), Seq::empty(), depth).0
            is Some,
        ({
            let t = crate::decompose_ensures::shown(
                n,
                s,
                w,
                known,
                Seq::empty(),
                Seq::empty(),
                depth,
            ).1;
            crate::bundle_meaning::is_fair(crate::bundle_meaning::reading_of(w, s, t, env, m))
        }),
    ensures
        ({
            let (q, t) = crate::decompose_ensures::shown(
                n,
                s,
                w,
                known,
                Seq::empty(),
                Seq::empty(),
                depth,
            );
            &&& shows(q->0, n, env, env, t.obs, true, m)
            &&& crate::bundle_meaning::all_hold(t.obs, env, m, pre) ==> crate::meaning::truth(
                crate::meaning::eval(n, env, m),
            )
            &&& crate::meaning::truth(crate::meaning::eval(n, env, m)) ==> forall|i: nat|
                q->0.uses(i) && i < t.obs.len() ==> crate::bundle_meaning::ob_holds(
                    #[trigger] t.obs[i as int],
                    env,
                    m,
                    pre,
                )
        }),
{
    let none: Subst = Seq::empty();
    let path: Seq<(Node, bool)> = Seq::empty();
    let (q, t) = crate::decompose_ensures::shown(n, s, w, known, none, path, depth);
    let c = crate::bundle_meaning::reading_of(w, s, t, env, m);
    crate::splitting::law_ensures_walk_only_adds(n, s, w, known, none, path, depth);
    crate::bundle_meaning::lemma_from(w, s, t, c.from);
    assert(crate::bundle_meaning::is_within(t, c));
    assert forall|x: Name| (#[trigger] crate::assoc::found(none, x)) is None by {}
    assert forall|x: Name| #[trigger] crate::written_meaning::in_content(none, x) implies names(
        x,
    ) by {
        crate::written_meaning::lemma_no_content(x);
    }
    lemma_shown_shows(n, s, known, none, path, depth, env, c, names);
    assert(crate::bundle_meaning::path_holds(path, env, m));
    if crate::bundle_meaning::all_hold(t.obs, env, m, pre) {
        law_a_proof_shows_the_proposition(q->0, n, env, env, t.obs, m, pre);
    }
    if crate::meaning::truth(crate::meaning::eval(n, env, m)) {
        assert forall|i: nat|
            q->0.uses(i) && i < t.obs.len() implies crate::bundle_meaning::ob_holds(
            #[trigger] t.obs[i as int],
            env,
            m,
            pre,
        ) by {
            law_a_proof_of_a_proposition_asks_for_no_more(
                q->0,
                n,
                env,
                env,
                t.obs,
                true,
                m,
                pre,
                i,
            );
        }
    }
}

} // verus!
