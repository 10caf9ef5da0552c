//! What splitting a companion keeps: long values that get a name keep their value, and
//! the bundle that a program is given for a companion is sound.

use crate::bundle_meaning::{Preconditions, Reading};
use crate::bundles::{Obligation, Proof};
use crate::cut_types::Known;
use crate::ir::Node;
use crate::meaning::{Env, Model, Val};
use crate::program::Prog;
use crate::segments::{Named, St, Whole};
use crate::spine_cuts::StepOf;
use crate::substitution::Subst;
use crate::types::{FunctionID, Name, Ty};
use vstd::prelude::*;

verus! {

/// Whether a model takes a function that names an expression for the expression.
pub open spec fn reads_name(a: Named, m: Model) -> bool {
    forall|ts: Seq<Ty>, vs: Seq<Val>| #[trigger]
        (m.call)(a.id, ts, vs) == crate::meaning::eval(
            a.body,
            crate::meaning::set_all(|x: Name| Val::Nothing, a.params, vs, a.params.len()),
            m,
        )
}

/// Whether a model takes all functions that name expressions for the expressions.
pub open spec fn reads_names(atoms: Seq<Named>, m: Model) -> bool {
    forall|i: int| 0 <= i < atoms.len() ==> reads_name(#[trigger] atoms[i], m)
}

/// A function that is found for an expression names it.
proof fn lemma_cached(atoms: Seq<Named>, n: Node, xs: Seq<Name>, m: Model)
    requires
        reads_names(atoms, m),
    ensures
        crate::segments::cached(atoms, n, xs) matches Some(id) ==> reads_name(
            Named { body: n, params: xs, id },
            m,
        ),
    decreases atoms.len(),
{
    if atoms.len() > 0 {
        let front = atoms.drop_last();
        assert forall|i: int| 0 <= i < front.len() implies reads_name(#[trigger] front[i], m) by {
            assert(front[i] == atoms[i]);
        }
        lemma_cached(front, n, xs, m);
        assert(reads_name(atoms[atoms.len() - 1], m));
    }
}

/// A parameter is wanted.
proof fn lemma_only_wanted(known: Known, want: spec_fn(Name) -> bool, i: int)
    requires
        crate::segments::wanted_params(known, want) is Some,
        0 <= i < crate::segments::wanted_params(known, want)->0.len(),
    ensures
        want(crate::segments::wanted_params(known, want)->0[i].ssa_value),
    decreases known.len(),
{
    if known.len() > 0 {
        let before = crate::segments::wanted_params(known.drop_last(), want)->0;
        if i < before.len() {
            lemma_only_wanted(known.drop_last(), want, i);
        }
    }
}

/// A call that names an expression has its value where the variables have theirs.
proof fn lemma_named_call(
    id: FunctionID,
    n: Node,
    xs: Seq<Name>,
    env: Env,
    m: Model,
)
    requires
        reads_name(Named { body: n, params: xs, id }, m),
        forall|x: Name| #[trigger] n.free(x) ==> xs.contains(x),
    ensures
        crate::meaning::eval(crate::segments::call_on(id, xs), env, m) == crate::meaning::eval(
            n,
            env,
            m,
        ),
{
    let call = crate::segments::call_on(id, xs);
    let vs = crate::meaning::values(call, env, m);
    let start = |x: Name| Val::Nothing;
    let inside = crate::meaning::set_all(start, xs, vs, xs.len());
    assert(call.kids() == crate::phi_lifting::var_nodes(xs));
    assert(xs.subrange(0, xs.len() as int) =~= xs);
    assert forall|x: Name| #[trigger] n.free(x) && x != "_"@ implies inside(x) == env(x) by {
        assert forall|i: int| 0 <= i < xs.len() && #[trigger] xs[i] == x implies vs[i] == env(x) by {
            assert(call.kids()[i] == Node::Var(x));
            assert(crate::meaning::eval(Node::Var(x), env, m) == env(x));
        }
        crate::meaning::lemma_given(env, xs, vs, start, xs.len(), x);
    }
    assert(crate::meaning::agree(n, inside, env));
    crate::meaning::lemma_agree(n, inside, env, m);
    assert(crate::meaning::eval(call, env, m) == (m.call)(id, Seq::empty(), vs));
}

/// Naming an expression keeps its value.
proof fn lemma_atom_means(s: St, n: Node, known: Known, env: Env, c: Reading)
    requires
        crate::meaning::reads_from(c.m, c.end, c.from),
        c.from <= s.p.functions.len(),
        reads_names(s.atoms, c.m),
        crate::bundle_meaning::is_within(crate::segments::atom_made(s, c.w, n, known).1, c),
    ensures
        ({
            let (call, t) = crate::segments::atom_made(s, c.w, n, known);
            &&& reads_names(t.atoms, c.m)
            &&& call matches Some(k) ==> {
                &&& crate::meaning::eval(k, env, c.m) == crate::meaning::eval(n, env, c.m)
                &&& !n.free("_"@) ==> crate::written_meaning::among(k, |x: Name| n.free(x))
            }
        }),
{
    let (call, t) = crate::segments::atom_made(s, c.w, n, known);
    let want = |x: Name| n.free(x);
    if call is Some {
        let ps = crate::segments::wanted_params(known, want)->0;
        let xs = crate::segments::param_vars(ps);
        let id = call->0->Call_function;
        assert forall|x: Name| #[trigger] n.free(x) implies xs.contains(x) by {
            crate::bundle_meaning::lemma_wanted(known, want, x);
        }
        lemma_cached(s.atoms, n, xs, c.m);
        if crate::segments::cached(s.atoms, n, xs) is None {
            let last = s.p.functions.len() as int;
            assert(c.end.functions[last] == t.p.functions[last]);
            let func = t.p.functions[last].1;
            assert(crate::meaning::reads_as(c.m, id, func));
            assert(crate::meaning::given_names(func) =~= xs);
            let named = Named { body: n, params: xs, id };
            assert(reads_name(named, c.m)) by {
                assert forall|ts: Seq<Ty>, vs: Seq<Val>| #[trigger]
                    (c.m.call)(id, ts, vs) == crate::meaning::eval(
                        n,
                        crate::meaning::set_all(|x: Name| Val::Nothing, xs, vs, xs.len()),
                        c.m,
                    ) by {
                    assert((c.m.call)(id, ts, vs) == crate::meaning::eval(
                        func.body,
                        crate::meaning::given(func, vs),
                        c.m,
                    ));
                }
            }
            assert forall|i: int| 0 <= i < t.atoms.len() implies reads_name(
                #[trigger] t.atoms[i],
                c.m,
            ) by {
                if i < s.atoms.len() {
                    assert(t.atoms[i] == s.atoms[i]);
                }
            }
        }
        lemma_named_call(id, n, xs, env, c.m);
        if !n.free("_"@) {
            lemma_call_among(id, xs, n, known);
        }
    }
}

/// A call that names an expression mentions its variables, and binds nothing.
proof fn lemma_call_among(id: FunctionID, xs: Seq<Name>, n: Node, known: Known)
    requires
        !n.free("_"@),
        crate::segments::wanted_params(known, |x: Name| n.free(x)) matches Some(ps) && xs
            == crate::segments::param_vars(ps),
    ensures
        crate::written_meaning::among(
            crate::segments::call_on(id, xs),
            |x: Name| n.free(x),
        ),
{
    let call = crate::segments::call_on(id, xs);
    let want = |x: Name| n.free(x);
    let names = |x: Name| n.free(x);
    let ps = crate::segments::wanted_params(known, want)->0;
    assert(call.kids() == crate::phi_lifting::var_nodes(xs));
    assert forall|i: int| 0 <= i < xs.len() implies n.free(#[trigger] xs[i]) by {
        lemma_only_wanted(known, want, i);
    }
    let t = |k: Node| k.uses_here("_"@);
    if call.uses("_"@) {
        let i = choose|i: int| 0 <= i < call.kids().len() && (#[trigger] call.kids()[i]).any(t);
        assert(call.kids()[i] == Node::Var(xs[i]));
        assert(!Node::Var(xs[i]).any_kid(t));
    }
    assert forall|x: Name| #[trigger] call.free(x) implies names(x) by {
        let i = choose|i: int|
            0 <= i < call.kids().len() && (#[trigger] call.kids()[i]).free(x) && !call.binds(i, x);
        let kid = Node::Var(xs[i]);
        assert(call.kids()[i] == kid);
        assert(kid.kids().len() == 0);
        assert(kid.uses_here(x));
    }
    assert forall|y: Name| !(#[trigger] crate::meaning::binds_in(call, y)) by {
        let b = |k: Node| exists|i: int| k.binds(i, y);
        if call.any(b) {
            assert(!b(call));
            let i = choose|i: int| 0 <= i < call.kids().len() && (#[trigger] call.kids()[i]).any(b);
            let kid = Node::Var(xs[i]);
            assert(call.kids()[i] == kid);
            assert(!b(kid));
            assert(!kid.any_kid(b));
        }
    }
}

/// A part of an expression that binds nothing around it stands among the names that the
/// expression stands among.
proof fn lemma_part_among(n: Node, names: spec_fn(Name) -> bool, i: int)
    requires
        crate::written_meaning::among(n, names),
        0 <= i < n.kids().len(),
        forall|x: Name| !n.binds(i, x),
    ensures
        crate::written_meaning::among(n.kids()[i], names),
{
    let kid = n.kids()[i];
    crate::written_meaning::lemma_unused_in_part(n, i, "_"@);
    assert forall|x: Name| #[trigger] kid.free(x) implies names(x) by {
        assert(n.kids()[i].free(x) && !n.binds(i, x));
        assert(n.free_in_kid(x));
        assert(n.free(x));
    }
    assert forall|y: Name| #[trigger] crate::meaning::binds_in(kid, y) && y
        != "_"@ implies !names(y) by {
        crate::meaning::lemma_binds_in(n, i, y);
        assert(crate::meaning::binds_in(n, y));
    }
}

/// A branch whose parts stand among names stands among them.
proof fn lemma_branch_among(cond: Node, t: Node, e: Node, names: spec_fn(Name) -> bool)
    requires
        crate::written_meaning::among(cond, names),
        crate::written_meaning::among(t, names),
        crate::written_meaning::among(e, names),
    ensures
        crate::written_meaning::among(
            Node::If { cond: Box::new(cond), then_branch: Box::new(t), else_branch: Box::new(e) },
            names,
        ),
{
    let n = Node::If { cond: Box::new(cond), then_branch: Box::new(t), else_branch: Box::new(e) };
    assert(n.kids() =~= seq![cond, t, e]);
    let used = |k: Node| k.uses_here("_"@);
    if n.any(used) {
        let i = choose|i: int| 0 <= i < n.kids().len() && (#[trigger] n.kids()[i]).any(used);
        assert(n.kids()[i].uses("_"@));
    }
    assert forall|x: Name| #[trigger] n.free(x) implies names(x) by {
        let i = choose|i: int|
            0 <= i < n.kids().len() && (#[trigger] n.kids()[i]).free(x) && !n.binds(i, x);
        assert(n.kids()[i].free(x));
    }
    assert forall|y: Name| #[trigger] crate::meaning::binds_in(n, y) && y != "_"@ implies !names(
        y,
    ) by {
        let b = |k: Node| exists|i: int| k.binds(i, y);
        assert(!b(n));
        let i = choose|i: int| 0 <= i < n.kids().len() && (#[trigger] n.kids()[i]).any(b);
        assert(crate::meaning::binds_in(n.kids()[i], y));
    }
}

/// Whether the values that variables have by themselves are told among names: each is that
/// of the expression that is known for it.
pub open spec fn knows_values(arith: Subst, env: Env, m: Model, names: spec_fn(Name) -> bool) -> bool {
    &&& crate::written_meaning::stands_for(arith, env, env, m)
    &&& crate::written_meaning::told_among(arith, names)
    &&& crate::ensures_meaning::all_written(arith)
    &&& !crate::written_meaning::in_content(arith, "_"@)
}

/// An expression with known values written in keeps its value, and mentions no new names.
proof fn lemma_long(
    n: Node,
    arith: Subst,
    env: Env,
    m: Model,
    names: spec_fn(Name) -> bool,
)
    requires
        crate::meaning::takes_fields(m),
        knows_values(arith, env, m, names),
        crate::written_meaning::among(n, names),
    ensures
        crate::meaning::eval(crate::substitution::inlined(n, arith), env, m)
            == crate::meaning::eval(n, env, m),
        forall|x: Name| #[trigger] crate::substitution::inlined(n, arith).free(x) ==> names(x),
        !crate::substitution::inlined(n, arith).free("_"@),
{
    let f = |k: Node| crate::written_meaning::put_in(k, arith, false);
    let g = |k: Node| crate::substitution::written_out(k, arith);
    assert(f =~= g);
    assert(crate::written_meaning::clear_of(n, arith));
    assert(!crate::substitution::mentions_opaque(n, arith));
    crate::written_meaning::lemma_put_in(n, arith, env, env, m, false);
    assert forall|x: Name| #[trigger]
        crate::substitution::inlined(n, arith).free(x) implies names(x) by {
        crate::written_meaning::lemma_put_in_free(n, arith, false, x);
    }
    if crate::substitution::inlined(n, arith).free("_"@) {
        crate::written_meaning::lemma_put_in_free(n, arith, false, "_"@);
        if n.free("_"@) {
            crate::written_meaning::lemma_free_used(n, "_"@);
        }
    }
}

/// What mentions only what an expression mentions stands among the names that the
/// expression mentions, where it binds nothing.
proof fn lemma_among_more(k: Node, n: Node, names: spec_fn(Name) -> bool)
    requires
        crate::written_meaning::among(k, |x: Name| n.free(x)),
        k is Call,
        forall|x: Name| #[trigger] n.free(x) ==> names(x),
        forall|y: Name| !(#[trigger] crate::meaning::binds_in(k, y)),
    ensures
        crate::written_meaning::among(k, names),
{
    let own = |x: Name| n.free(x);
    assert forall|x: Name| #[trigger] k.free(x) implies names(x) by {
        assert(own(x));
    }
}

/// A side of a branch that is named keeps its value, and stands among the same names.
proof fn lemma_side_means(
    s: St,
    n: Node,
    known: Known,
    arith: Subst,
    env: Env,
    c: Reading,
    names: spec_fn(Name) -> bool,
)
    requires
        crate::meaning::takes_fields(c.m),
        crate::meaning::reads_from(c.m, c.end, c.from),
        c.from <= s.p.functions.len(),
        reads_names(s.atoms, c.m),
        knows_values(arith, env, c.m, names),
        crate::written_meaning::among(n, names),
        crate::bundle_meaning::is_within(
            crate::segments::named_side(s, c.w, n, known, arith).1,
            c,
        ),
    ensures
        ({
            let (k, t) = crate::segments::named_side(s, c.w, n, known, arith);
            &&& reads_names(t.atoms, c.m)
            &&& crate::meaning::eval(k, env, c.m) == crate::meaning::eval(n, env, c.m)
            &&& crate::written_meaning::among(k, names)
        }),
{
    let long = crate::substitution::inlined(n, arith);
    lemma_long(n, arith, env, c.m, names);
    if crate::sizes::text_len(long) >= crate::segments::ATOM_MIN {
        lemma_atom_means(s, long, known, env, c);
        if let Some(k) = crate::segments::atom_made(s, c.w, long, known).0 {
            lemma_named_binds_nothing(s, long, known, c.w);
            lemma_among_more(k, long, names);
        }
    }
}

/// A call that names an expression binds nothing.
proof fn lemma_named_binds_nothing(s: St, n: Node, known: Known, w: Whole)
    ensures
        crate::segments::atom_made(s, w, n, known).0 matches Some(k) ==> k is Call && forall|y: Name|
            !(#[trigger] crate::meaning::binds_in(k, y)),
{
    if let Some(k) = crate::segments::atom_made(s, w, n, known).0 {
        assert forall|y: Name| !(#[trigger] crate::meaning::binds_in(k, y)) by {
            let b = |k: Node| exists|i: int| k.binds(i, y);
            if k.any(b) {
                assert(!b(k));
                let i = choose|i: int| 0 <= i < k.kids().len() && (#[trigger] k.kids()[i]).any(b);
                let kid = k.kids()[i];
                assert(kid is Var);
                assert(!b(kid));
                assert(!kid.any_kid(b));
            }
        }
    }
}

/// A value that is named keeps its value, and stands among the same names.
proof fn lemma_value_means(
    s: St,
    pattern: Seq<Name>,
    value: Node,
    known: Known,
    arith: Subst,
    env: Env,
    c: Reading,
    names: spec_fn(Name) -> bool,
)
    requires
        crate::meaning::takes_fields(c.m),
        crate::meaning::reads_from(c.m, c.end, c.from),
        c.from <= s.p.functions.len(),
        reads_names(s.atoms, c.m),
        knows_values(arith, env, c.m, names),
        crate::written_meaning::among(value, names),
        crate::bundle_meaning::is_within(
            crate::segments::named_value(s, c.w, pattern, value, known, arith).1,
            c,
        ),
    ensures
        ({
            let (v, t, _) = crate::segments::named_value(s, c.w, pattern, value, known, arith);
            &&& reads_names(t.atoms, c.m)
            &&& crate::meaning::eval(v, env, c.m) == crate::meaning::eval(value, env, c.m)
            &&& crate::written_meaning::among(v, names)
        }),
{
    if pattern.len() == 1 && crate::segments::is_nameable(value) {
        let long = crate::substitution::inlined(value, arith);
        lemma_long(value, arith, env, c.m, names);
        if crate::sizes::text_len(long) >= crate::segments::ATOM_MIN {
            match value {
                Node::If { cond, then_branch, else_branch } => {
                    assert(value.kids() =~= seq![*cond, *then_branch, *else_branch]);
                    lemma_part_among(value, names, 0);
                    lemma_part_among(value, names, 1);
                    lemma_part_among(value, names, 2);
                    let (t, s1) = crate::segments::named_side(s, c.w, *then_branch, known, arith);
                    let (e, s2) = crate::segments::named_side(s1, c.w, *else_branch, known, arith);
                    crate::cutting::lemma_named_side(s, c.w, *then_branch, known, arith);
                    crate::cutting::lemma_named_side(s1, c.w, *else_branch, known, arith);
                    crate::bundle_meaning::lemma_from(c.w, s, s1, c.from);
                    crate::bundle_meaning::lemma_within(s1, s2, c);
                    lemma_side_means(s, *then_branch, known, arith, env, c, names);
                    lemma_side_means(s1, *else_branch, known, arith, env, c, names);
                    lemma_branch_among(*cond, t, e, names);
                },
                _ => {
                    lemma_atom_means(s, long, known, env, c);
                    if let Some(k) = crate::segments::atom_made(s, c.w, long, known).0 {
                        lemma_named_binds_nothing(s, long, known, c.w);
                        lemma_among_more(k, long, names);
                    }
                },
            }
        }
    }
}

/// Whether every binding along an expression takes new names.
pub open spec fn names_are_new(n: Node, names: spec_fn(Name) -> bool) -> bool
    decreases n,
{
    match n {
        Node::Let { pattern, body, .. } => {
            &&& forall|x: Name| #[trigger] pattern.contains(x) && x != "_"@ ==> !names(x)
            &&& names_are_new(*body, crate::written_meaning::more_names(names, pattern))
        },
        Node::MatchOption { scrutinee, none_branch, .. } => names_are_new(*scrutinee, names)
            && names_are_new(*none_branch, names),
        Node::If { then_branch, else_branch, .. } => names_are_new(*then_branch, names)
            && names_are_new(*else_branch, names),
        _ => true,
    }
}

/// Behind a binding of new names what was known of values is known, and so is the value of
/// the name that is bound.
proof fn lemma_known_behind(
    s: St,
    pattern: Seq<Name>,
    value: Node,
    known: Known,
    arith: Subst,
    env: Env,
    w: Whole,
    m: Model,
    names: spec_fn(Name) -> bool,
)
    requires
        crate::meaning::takes_fields(m),
        knows_values(arith, env, m, names),
        crate::written_meaning::among(value, names),
        forall|x: Name| #[trigger] pattern.contains(x) && x != "_"@ ==> !names(x),
    ensures
        knows_values(
            crate::segments::named_value(s, w, pattern, value, known, arith).2,
            crate::meaning::bound(env, pattern, crate::meaning::eval(value, env, m)),
            m,
            crate::written_meaning::more_names(names, pattern),
        ),
{
    let t = crate::segments::named_value(s, w, pattern, value, known, arith).2;
    let long = crate::substitution::inlined(value, arith);
    let v = crate::meaning::eval(value, env, m);
    let out = crate::meaning::bound(env, pattern, v);
    let more = crate::written_meaning::more_names(names, pattern);
    lemma_long(value, arith, env, m, names);
    let put = t != arith;
    assert(put ==> pattern.len() == 1 && t == crate::assoc::put(arith, pattern[0], Some(long)));
    assert forall|x: Name| #[trigger] crate::assoc::found(t, x) == (if put && x == pattern[0] {
        Some(Some(long))
    } else {
        crate::assoc::found(arith, x)
    }) by {
        if put {
            crate::written_meaning::lemma_found_put(arith, pattern[0], Some(long), x);
        }
    }
    assert forall|x: Name|
        x != "_"@ ==> match #[trigger] crate::assoc::found(t, x) {
            Some(Some(e)) => out(x) == crate::meaning::eval(e, out, m),
            Some(None) => true,
            None => out(x) == out(x),
        } by {
        if let Some(Some(e)) = crate::assoc::found(t, x) {
            assert forall|z: Name| #[trigger] e.free(z) && z != "_"@ implies out(z) == env(z) by {
                if put && x == pattern[0] {
                    assert(names(z));
                } else {
                    assert(crate::assoc::found(arith, x) == Some(Some(e)));
                    assert(crate::written_meaning::in_content(arith, z));
                }
                crate::meaning::lemma_bound(env, env, pattern, v, z);
            }
            assert(crate::meaning::agree(e, out, env));
            crate::meaning::lemma_agree(e, out, env, m);
            if !(put && x == pattern[0]) {
                assert(crate::assoc::found(arith, x) is Some);
                assert(names(x));
                if x != "_"@ {
                    assert(!pattern.contains(x));
                    crate::meaning::lemma_bound(env, env, pattern, v, x);
                }
            }
        }
    }
    assert forall|x: Name| #[trigger] crate::assoc::found(t, x) != Some(None::<Node>) by {
        assert(crate::assoc::found(arith, x) != Some(None::<Node>));
    }
    assert forall|y: Name| (#[trigger] crate::assoc::found(t, y)) is Some implies more(y) by {
        if put && y == pattern[0] {
            assert(pattern.contains(y));
        } else {
            assert(crate::assoc::found(arith, y) is Some);
        }
    }
    assert forall|z: Name| #[trigger] crate::written_meaning::in_content(t, z) implies names(z) && z
        != "_"@ by {
        let y = choose|y: Name|
            match #[trigger] crate::assoc::found(t, y) {
                Some(Some(e)) => e.free(z),
                _ => false,
            };
        if !(put && y == pattern[0]) {
            assert(crate::assoc::found(arith, y) == crate::assoc::found(t, y));
            assert(crate::written_meaning::in_content(arith, z));
        }
    }
}

/// Nothing is known of values in the beginning.
proof fn lemma_nothing_known(env: Env, m: Model, names: spec_fn(Name) -> bool)
    ensures
        knows_values(Seq::empty(), env, m, names),
{
    let none: Subst = Seq::empty();
    assert forall|x: Name| (#[trigger] crate::assoc::found(none, x)) is None by {}
    assert forall|x: Name| !(#[trigger] crate::written_meaning::in_content(none, x)) by {
        crate::written_meaning::lemma_no_content(x);
    }
}

/// Naming the long values of an expression keeps its value, and nothing is mistaken for
/// another behind it.
proof fn lemma_hoisted_means(
    n: Node,
    s: St,
    known: Known,
    arith: Subst,
    env: Env,
    c: Reading,
    names: spec_fn(Name) -> bool,
)
    requires
        crate::meaning::takes_fields(c.m),
        crate::meaning::reads_from(c.m, c.end, c.from),
        c.from <= s.p.functions.len(),
        reads_names(s.atoms, c.m),
        knows_values(arith, env, c.m, names),
        crate::bundle_meaning::is_tidy(n, names, c.w),
        names_are_new(n, names),
        crate::bundle_meaning::is_within(crate::segments::hoisted(n, s, c.w, known, arith).1, c),
    ensures
        ({
            let (h, t) = crate::segments::hoisted(n, s, c.w, known, arith);
            &&& reads_names(t.atoms, c.m)
            &&& crate::meaning::eval(h, env, c.m) == crate::meaning::eval(n, env, c.m)
            &&& crate::bundle_meaning::is_tidy(h, names, c.w)
        }),
    decreases n,
{
    let none: Subst = Seq::empty();
    let t = crate::segments::hoisted(n, s, c.w, known, arith).1;
    match n {
        Node::Let { pattern, value, body } => {
            let (v, s1, arith1) = crate::segments::named_value(
                s,
                c.w,
                pattern,
                *value,
                known,
                arith,
            );
            let known1 = crate::cut_types::behind(
                known,
                pattern,
                crate::cut_types::told_type(v, known, s1.p),
            );
            let inner = crate::meaning::bound(
                env,
                pattern,
                crate::meaning::eval(*value, env, c.m),
            );
            crate::cutting::lemma_named_value(s, c.w, pattern, *value, known, arith);
            crate::bundle_meaning::lemma_from(c.w, s, s1, c.from);
            crate::cutting::lemma_hoisted(*body, s1, c.w, known1, arith1);
            crate::bundle_meaning::lemma_within(s1, t, c);
            lemma_value_means(s, pattern, *value, known, arith, env, c, names);
            lemma_known_behind(s, pattern, *value, known, arith, env, c.w, c.m, names);
            lemma_hoisted_means(
                *body,
                s1,
                known1,
                arith1,
                inner,
                c,
                crate::written_meaning::more_names(names, pattern),
            );
        },
        Node::MatchOption { scrutinee, binding, some_branch, none_branch } => {
            let goes = *scrutinee is Let || *scrutinee is MatchOption || *scrutinee is If;
            let (k, s1) = if goes {
                crate::segments::hoisted(*scrutinee, s, c.w, known, none)
            } else {
                (*scrutinee, s)
            };
            crate::cutting::lemma_hoisted(*scrutinee, s, c.w, known, none);
            crate::cutting::lemma_stays(c.w, s);
            crate::bundle_meaning::lemma_from(c.w, s, s1, c.from);
            crate::cutting::lemma_hoisted(*none_branch, s1, c.w, known, arith);
            crate::bundle_meaning::lemma_within(s1, t, c);
            if goes {
                lemma_nothing_known(env, c.m, names);
                lemma_hoisted_means(*scrutinee, s, known, none, env, c, names);
            }
            lemma_hoisted_means(*none_branch, s1, known, arith, env, c, names);
            let b = crate::segments::hoisted(*none_branch, s1, c.w, known, arith).0;
            crate::meaning::lemma_match_option(
                *scrutinee,
                binding,
                *some_branch,
                *none_branch,
                env,
                c.m,
            );
            crate::meaning::lemma_match_option(k, binding, *some_branch, b, env, c.m);
        },
        Node::If { cond, then_branch, else_branch } => {
            let s1 = crate::segments::hoisted(*then_branch, s, c.w, known, none).1;
            crate::cutting::lemma_hoisted(*then_branch, s, c.w, known, none);
            crate::bundle_meaning::lemma_from(c.w, s, s1, c.from);
            crate::cutting::lemma_hoisted(*else_branch, s1, c.w, known, none);
            crate::bundle_meaning::lemma_within(s1, t, c);
            lemma_nothing_known(env, c.m, names);
            lemma_hoisted_means(*then_branch, s, known, none, env, c, names);
            lemma_hoisted_means(*else_branch, s1, known, none, env, c, names);
        },
        _ => {},
    }
}

/// Whether the obligations that a proof uses stand elsewhere under other numbers, with the
/// same premises and claims.
pub open spec fn stand_elsewhere(
    q: Proof,
    obs: Seq<Obligation>,
    f: spec_fn(nat) -> nat,
    others: Seq<Obligation>,
) -> bool {
    forall|i: nat| #[trigger]
        q.uses(i) ==> i < obs.len() && f(i) < others.len() && others[f(i) as int].path
            == obs[i as int].path && others[f(i) as int].leaf == obs[i as int].leaf
}

/// A proof with other numbers for its obligations fits what it fitted.
proof fn lemma_renumbered_fits(
    q: Proof,
    n: Node,
    env: Env,
    base: Env,
    obs: Seq<Obligation>,
    taken: bool,
    m: Model,
    f: spec_fn(nat) -> nat,
    others: Seq<Obligation>,
)
    requires
        crate::bundle_meaning::fits(q, n, env, base, obs, taken, m),
        stand_elsewhere(q, obs, f, others),
    ensures
        crate::bundle_meaning::fits(q.renumbered(f), n, env, base, others, taken, m),
    decreases n,
{
    match q {
        Proof::Rfl => {},
        Proof::Leaf { ob } => {
            assert(q.uses(ob));
        },
        _ => match n {
            Node::Let { pattern, value, body } => {
                let inner = crate::meaning::bound(
                    env,
                    pattern,
                    crate::meaning::eval(*value, env, m),
                );
                lemma_renumbered_fits(q, *body, inner, base, obs, taken, m, f, others);
            },
            Node::MatchOption { scrutinee, none_branch, .. } => {
                if let Proof::OrElse(a, b) = q {
                    lemma_both_elsewhere(q, *a, *b, obs, f, others);
                    lemma_renumbered_fits(*a, *scrutinee, env, base, obs, taken, m, f, others);
                    lemma_renumbered_fits(*b, *none_branch, env, base, obs, taken, m, f, others);
                }
            },
            Node::If { cond, then_branch, else_branch } => {
                let yes = crate::meaning::truth(crate::meaning::eval(*cond, env, m));
                match q {
                    Proof::BIte(a, b) | Proof::DIte(a, b) => {
                        lemma_both_elsewhere(q, *a, *b, obs, f, others);
                        lemma_renumbered_fits(
                            *a,
                            *then_branch,
                            env,
                            base,
                            obs,
                            taken && yes,
                            m,
                            f,
                            others,
                        );
                        lemma_renumbered_fits(
                            *b,
                            *else_branch,
                            env,
                            base,
                            obs,
                            taken && !yes,
                            m,
                            f,
                            others,
                        );
                    },
                    Proof::GuardFalse { ob, rest } => {
                        assert(q.uses(ob));
                        assert forall|i: nat| #[trigger] rest.uses(i) implies q.uses(i) by {}
                        lemma_renumbered_fits(
                            *rest,
                            *else_branch,
                            env,
                            base,
                            obs,
                            taken,
                            m,
                            f,
                            others,
                        );
                    },
                    Proof::GuardTrue { ob, rest } => {
                        assert(q.uses(ob));
                        assert forall|i: nat| #[trigger] rest.uses(i) implies q.uses(i) by {}
                        lemma_renumbered_fits(
                            *rest,
                            *then_branch,
                            env,
                            base,
                            obs,
                            taken,
                            m,
                            f,
                            others,
                        );
                    },
                    _ => {},
                }
            },
            Node::Call { .. } => {
                if let Proof::RequiresApp { req_ob, call_ob } = q {
                    assert(q.uses(req_ob));
                    assert(q.uses(call_ob));
                }
            },
            _ => {},
        },
    }
}

/// What a proof uses that is made of two stands elsewhere for both.
proof fn lemma_both_elsewhere(
    q: Proof,
    a: Proof,
    b: Proof,
    obs: Seq<Obligation>,
    f: spec_fn(nat) -> nat,
    others: Seq<Obligation>,
)
    requires
        stand_elsewhere(q, obs, f, others),
        forall|i: nat| a.uses(i) || b.uses(i) ==> #[trigger] q.uses(i),
    ensures
        stand_elsewhere(a, obs, f, others),
        stand_elsewhere(b, obs, f, others),
{
    assert forall|i: nat| #[trigger] a.uses(i) implies q.uses(i) by {}
    assert forall|i: nat| #[trigger] b.uses(i) implies q.uses(i) by {}
}

/// A proof with other numbers for its obligations shows the value that it showed.
proof fn lemma_renumbered_value(
    q: Proof,
    v: bool,
    base: Env,
    obs: Seq<Obligation>,
    taken: bool,
    m: Model,
    f: spec_fn(nat) -> nat,
    others: Seq<Obligation>,
)
    requires
        crate::ensures_meaning::shows_value(q, v, base, obs, taken, m),
        stand_elsewhere(q, obs, f, others),
    ensures
        crate::ensures_meaning::shows_value(q.renumbered(f), v, base, others, taken, m),
    decreases q,
{
    match q {
        Proof::Leaf { ob } => {
            assert(q.uses(ob));
        },
        Proof::AndBool(a, b) => {
            let (x, y) = choose|x: bool, y: bool| #[trigger]
                crate::ensures_meaning::both_are(x, y) && v == (x && y)
                    && crate::ensures_meaning::shows_value(*a, x, base, obs, taken, m)
                    && crate::ensures_meaning::shows_value(*b, y, base, obs, taken, m);
            lemma_both_elsewhere(q, *a, *b, obs, f, others);
            lemma_renumbered_value(*a, x, base, obs, taken, m, f, others);
            lemma_renumbered_value(*b, y, base, obs, taken, m, f, others);
        },
        Proof::BIteBool(a, b) => {
            let (yes, x, y) = choose|yes: bool, x: bool, y: bool| #[trigger]
                crate::ensures_meaning::side_is(yes, x, y) && v == (if yes {
                    x
                } else {
                    y
                }) && crate::ensures_meaning::shows_value(*a, x, base, obs, taken && yes, m)
                    && crate::ensures_meaning::shows_value(*b, y, base, obs, taken && !yes, m);
            lemma_both_elsewhere(q, *a, *b, obs, f, others);
            lemma_renumbered_value(*a, x, base, obs, taken && yes, m, f, others);
            lemma_renumbered_value(*b, y, base, obs, taken && !yes, m, f, others);
        },
        _ => {},
    }
}

/// A proof with other numbers for its obligations shows what it showed.
proof fn lemma_renumbered_shows(
    q: Proof,
    n: Node,
    env: Env,
    base: Env,
    obs: Seq<Obligation>,
    taken: bool,
    m: Model,
    f: spec_fn(nat) -> nat,
    others: Seq<Obligation>,
)
    requires
        crate::ensures_meaning::shows(q, n, env, base, obs, taken, m),
        stand_elsewhere(q, obs, f, others),
    ensures
        crate::ensures_meaning::shows(q.renumbered(f), n, env, base, others, taken, m),
    decreases n,
{
    match n {
        Node::Let { pattern, value, body } => {
            let inner = crate::meaning::bound(env, pattern, crate::meaning::eval(*value, env, m));
            lemma_renumbered_shows(q, *body, inner, base, obs, taken, m, f, others);
        },
        Node::If { cond, then_branch, else_branch } if q is PIte => {
            let yes = crate::meaning::truth(crate::meaning::eval(*cond, env, m));
            if let Proof::PIte(a, b) = q {
                lemma_both_elsewhere(q, *a, *b, obs, f, others);
                lemma_renumbered_shows(
                    *a,
                    *then_branch,
                    env,
                    base,
                    obs,
                    taken && yes,
                    m,
                    f,
                    others,
                );
                lemma_renumbered_shows(
                    *b,
                    *else_branch,
                    env,
                    base,
                    obs,
                    taken && !yes,
                    m,
                    f,
                    others,
                );
            }
        },
        _ => {
            lemma_renumbered_value(
                q,
                crate::meaning::truth(crate::meaning::eval(n, env, m)),
                base,
                obs,
                taken,
                m,
                f,
                others,
            );
        },
    }
}

/// The obligations that a proof uses are kept, at the places of their new numbers.
proof fn lemma_kept_elsewhere(q: Proof, obs: Seq<Obligation>)
    requires
        crate::cutting::rests_on(Some(q), obs.len()),
    ensures
        stand_elsewhere(q, obs, |i: nat| q.rank(i), q.kept(obs, obs.len())),
{
    let f = |i: nat| q.rank(i);
    assert forall|i: nat| #[trigger] q.uses(i) implies i < obs.len() && f(i) < q.kept(
        obs,
        obs.len(),
    ).len() && q.kept(obs, obs.len())[f(i) as int].path == obs[i as int].path && q.kept(
        obs,
        obs.len(),
    )[f(i) as int].leaf == obs[i as int].leaf by {
        q.law_kept_in_place(obs, obs.len(), i);
    }
}

/// A body that changes is that of a function that was there; the functions behind stay.
proof fn lemma_behind_stays(p: Prog, q: Prog, id: FunctionID, body: Node)
    requires
        p.has(id),
        crate::cutting::begins_with(q.functions, p.functions),
    ensures
        ({
            let r = q.with_body_of(id, body);
            &&& r.functions.len() == q.functions.len()
            &&& r.func(id).body == body
            &&& forall|i: int|
                p.functions.len() <= i < q.functions.len() ==> #[trigger] r.functions[i]
                    == q.functions[i]
        }),
{
    let i = crate::program::slot(p.functions, id)->0;
    assert(crate::program::is_slot(p.functions, id, i));
    assert forall|j: int| 0 <= j < i implies (#[trigger] q.functions[j]).0 != id by {
        assert(q.functions[j] == p.functions[j]);
    }
    assert(q.functions[i] == p.functions[i]);
    assert(crate::program::is_slot(q.functions, id, i));
    crate::program::lemma_slot(q.functions, id, i);
    q.lemma_with_body(id, body);
}

/// Whether a model is fair to a program that was made of another one by splitting a
/// companion: it takes fields, the world's projections, functions that find nothing, and
/// the functions that were added, for what they are.
pub open spec fn is_fair_to(m: Model, p: Prog, r: Prog) -> bool {
    &&& crate::meaning::takes_fields(m)
    &&& crate::written_meaning::projects(m, p.world_functions)
    &&& crate::bundle_meaning::reads_nothing(m, p)
    &&& crate::meaning::reads_from(m, r, p.functions.len())
}

/// A model that is fair to the program that comes out is fair to that before a body was
/// changed.
proof fn lemma_fair(p: Prog, r: Prog, c: Reading)
    requires
        is_fair_to(c.m, p, r),
        crate::cutting::begins_with(c.end.functions, p.functions),
        r.functions.len() == c.end.functions.len(),
        forall|i: int|
            p.functions.len() <= i < c.end.functions.len() ==> #[trigger] r.functions[i]
                == c.end.functions[i],
        c.end.world_functions == p.world_functions,
        c.from == p.functions.len(),
    ensures
        crate::bundle_meaning::is_fair(c),
{
    assert forall|i: int| c.from <= i < c.end.functions.len() implies crate::meaning::reads_as(
        c.m,
        (#[trigger] c.end.functions[i]).0,
        c.end.functions[i].1,
    ) by {
        assert(r.functions[i] == c.end.functions[i]);
    }
    assert forall|i: int|
        0 <= i < c.end.functions.len() && (#[trigger] c.end.functions[i]).1.body is OptionNone
            && !c.end.functions[i].1.is_native implies crate::meaning::reads_as(
        c.m,
        c.end.functions[i].0,
        c.end.functions[i].1,
    ) by {
        if i < p.functions.len() {
            assert(c.end.functions[i] == p.functions[i]);
        }
    }
}

/// The bundle that a program is given for an abort companion is sound. Where all its
/// obligations hold, over the parameters of the companion, the companion as it was finds no
/// abort; and its proof fits the companion with its long values named, which has the value
/// of the companion. The companion as it then is, with calls of segments in the place of
/// parts, computes what it did.
pub proof fn law_the_bundle_of_a_companion_is_sound(
    p: Prog,
    id: FunctionID,
    small: bool,
    env: Env,
    m: Model,
    names: spec_fn(Name) -> bool,
    pre: Preconditions,
)
    requires
        p.has(id),
        ({
            let f = p.func(id);
            let w = crate::decompose_aborts::whole_of(f, f.signature.return_type);
            let r = crate::decompose_aborts::split_one(p, id, small).0;
            &&& crate::bundle_meaning::is_tidy(f.body, names, w)
            &&& names_are_new(f.body, names)
            &&& r.aborts_bundles.len() > p.aborts_bundles.len()
            &&& is_fair_to(m, p, r)
        }),
    ensures
        ({
            let f = p.func(id);
            let w = crate::decompose_aborts::whole_of(f, f.signature.return_type);
            let known = crate::decompose_aborts::params_known(f.signature.parameters);
            let body = crate::segments::hoisted(
                f.body,
                crate::decompose_aborts::begun(p),
                w,
                known,
                Seq::empty(),
            ).0;
            let r = crate::decompose_aborts::split_one(p, id, small).0;
            let b = r.aborts_bundles.last();
            &&& b.fn_id == id
            &&& crate::meaning::eval(body, env, m) == crate::meaning::eval(f.body, env, m)
            &&& crate::bundle_meaning::fits(b.proof, body, env, env, b.obligations, true, m)
            &&& crate::bundle_meaning::all_hold(b.obligations, env, m, pre) ==> !(
            crate::meaning::eval(f.body, env, m) is Just)
            &&& crate::meaning::eval(r.func(id).body, env, m) == crate::meaning::eval(
                f.body,
                env,
                m,
            )
        }),
{
    let none: Subst = Seq::empty();
    let path: Seq<(Node, bool)> = Seq::empty();
    let lefts: Seq<Proof> = Seq::empty();
    let f = p.func(id);
    let w = crate::decompose_aborts::whole_of(f, f.signature.return_type);
    let known = crate::decompose_aborts::params_known(f.signature.parameters);
    let start = crate::decompose_aborts::begun(p);
    let r = crate::decompose_aborts::split_one(p, id, small).0;
    let (body, s1) = crate::segments::hoisted(f.body, start, w, known, none);
    let (q, s2) = crate::decompose_aborts::bundled_on(
        body,
        body,
        s1,
        w,
        known,
        none,
        path,
        lefts,
        None,
    );
    crate::cutting::lemma_hoisted(f.body, start, w, known, none);
    crate::cutting::lemma_walk_on(body, body, s1, w, known, none, path, lefts, None);
    crate::cutting::lemma_leads_on(w, start, s1, s2);
    lemma_bundles_stay(w, start, s2);
    lemma_bundle_is_new(p, id, small);
    let c = Reading {
        w,
        base: env,
        m,
        obs: s2.obs,
        end: s2.p,
        from: p.functions.len(),
    };
    let new_body = crate::decompose_aborts::stood_in(body, s2.replaced);
    assert(crate::cutting::begins_with(s2.p.functions, p.functions)) by {
        reveal(crate::cutting::leads_to);
    }
    lemma_behind_stays(p, s2.p, id, new_body);
    crate::bundle_meaning::lemma_from(w, start, s2, c.from);
    crate::bundle_meaning::lemma_from(w, start, s1, c.from);
    assert(r.functions == s2.p.with_body_of(id, new_body).functions);
    lemma_fair(p, r, c);
    assert(crate::bundle_meaning::is_within(s2, c));
    crate::bundle_meaning::lemma_within(s1, s2, c);
    lemma_stand_ins_mean(w, start, s2, c);
    law_standing_in_keeps_the_value(body, s2.replaced, env, m);
    lemma_nothing_known(env, m, names);
    lemma_hoisted_means(f.body, start, known, none, env, c, names);
    assert forall|x: Name| (#[trigger] crate::assoc::found(none, x)) is None by {}
    assert forall|x: Name| !(#[trigger] crate::written_meaning::in_content(none, x)) by {
        crate::written_meaning::lemma_no_content(x);
    }
    let got = crate::bundle_meaning::lemma_on_fits(
        body,
        body,
        s1,
        known,
        none,
        path,
        lefts,
        None,
        env,
        env,
        c,
        names,
    );
    assert(crate::bundle_meaning::path_holds(path, env, m));
    let kept = q->0.kept(s2.obs, s2.obs.len());
    lemma_kept_elsewhere(q->0, s2.obs);
    lemma_renumbered_fits(
        q->0,
        body,
        env,
        env,
        s2.obs,
        true,
        m,
        |i: nat| q->0.rank(i),
        kept,
    );
    if crate::bundle_meaning::all_hold(kept, env, m, pre) {
        crate::bundle_meaning::law_a_proof_shows_that_nothing_aborts(
            q->0.compacted(),
            body,
            env,
            env,
            kept,
            m,
            pre,
        );
    }
}

/// Cutting leaves the bundles alone.
proof fn lemma_bundles_stay(w: Whole, s: St, t: St)
    requires
        crate::cutting::leads_to(w, s, t),
    ensures
        t.p.aborts_bundles == s.p.aborts_bundles,
        t.p.ensures_bundles == s.p.ensures_bundles,
        t.p.world_functions == s.p.world_functions,
{
    reveal(crate::cutting::leads_to);
}

/// Where there is one more bundle, it is that of the walk.
proof fn lemma_bundle_is_new(p: Prog, id: FunctionID, small: bool)
    requires
        crate::decompose_aborts::split_one(p, id, small).0.aborts_bundles.len()
            > p.aborts_bundles.len(),
    ensures
        ({
            let f = p.func(id);
            let w = crate::decompose_aborts::whole_of(f, f.signature.return_type);
            let known = crate::decompose_aborts::params_known(f.signature.parameters);
            let (body, s1) = crate::segments::hoisted(
                f.body,
                crate::decompose_aborts::begun(p),
                w,
                known,
                Seq::empty(),
            );
            let (q, s2) = crate::decompose_aborts::bundled_on(
                body,
                body,
                s1,
                w,
                known,
                Seq::empty(),
                Seq::empty(),
                Seq::empty(),
                None,
            );
            q is Some && crate::decompose_aborts::split_one(p, id, small).0
                == crate::decompose_aborts::with_bundle(s2, id, body, q->0)
        }),
{
    let f = p.func(id);
    let w = crate::decompose_aborts::whole_of(f, f.signature.return_type);
    let known = crate::decompose_aborts::params_known(f.signature.parameters);
    let start = crate::decompose_aborts::begun(p);
    let (body, s1) = crate::segments::hoisted(f.body, start, w, known, Seq::empty());
    let s2 = crate::decompose_aborts::bundled_on(
        body,
        body,
        s1,
        w,
        known,
        Seq::empty(),
        Seq::empty(),
        Seq::empty(),
        None,
    ).1;
    crate::cutting::lemma_hoisted(f.body, start, w, known, Seq::empty());
    crate::cutting::lemma_walk_on(
        body,
        body,
        s1,
        w,
        known,
        Seq::empty(),
        Seq::empty(),
        Seq::empty(),
        None,
    );
    lemma_bundles_stay(w, start, s1);
    lemma_bundles_stay(w, s1, s2);
    crate::cutting::lemma_segmented(body, s2, w, known);
    let s3 = crate::spine_cuts::segmented(body, s2, w, known).1;
    lemma_bundles_stay(w, s2, s3);
}

/// The bundle that a program is given for a companion that states what is ensured is sound:
/// its proof shows the companion, and where all its obligations hold, over the parameters
/// of the companion, what the companion states is true. The companion as it then is, with
/// calls of segments in the place of parts, states what it did.
pub proof fn law_the_bundle_of_an_ensures_companion_is_sound(
    p: Prog,
    id: FunctionID,
    env: Env,
    m: Model,
    names: spec_fn(Name) -> bool,
    pre: Preconditions,
)
    requires
        p.has(id),
        ({
            let f = p.func(id);
            let w = crate::decompose_aborts::whole_of(f, Ty::Prop);
            let r = crate::decompose_ensures::ensures_split_one(p, id);
            &&& crate::ensures_meaning::is_tidy_proposition(
                f.body,
                Seq::empty(),
                names,
                w,
                p.world_functions,
                crate::coalesce::NESTING as nat,
            )
            &&& r.ensures_bundles.len() > p.ensures_bundles.len()
            &&& is_fair_to(m, p, r)
        }),
    ensures
        ({
            let f = p.func(id);
            let r = crate::decompose_ensures::ensures_split_one(p, id);
            let b = r.ensures_bundles.last();
            &&& b.fn_id == id
            &&& crate::ensures_meaning::shows(
                b.proof,
                f.body,
                env,
                env,
                b.obligations,
                true,
                m,
            )
            &&& crate::bundle_meaning::all_hold(b.obligations, env, m, pre)
                ==> crate::meaning::truth(crate::meaning::eval(f.body, env, m))
            &&& crate::meaning::eval(r.func(id).body, env, m) == crate::meaning::eval(
                f.body,
                env,
                m,
            )
        }),
{
    let none: Subst = Seq::empty();
    let path: Seq<(Node, bool)> = Seq::empty();
    let depth = crate::coalesce::NESTING as nat;
    let f = p.func(id);
    let w = crate::decompose_aborts::whole_of(f, Ty::Prop);
    let known = crate::decompose_aborts::params_known(f.signature.parameters);
    let start = crate::decompose_aborts::begun(p);
    let r = crate::decompose_ensures::ensures_split_one(p, id);
    let (q, s) = crate::decompose_ensures::shown_on(
        f.body,
        start,
        w,
        known,
        none,
        path,
        None,
        depth,
    );
    crate::splitting::lemma_shown_on(f.body, start, w, known, none, path, None, depth);
    lemma_bundles_stay(w, start, s);
    let c = Reading { w, base: env, m, obs: s.obs, end: s.p, from: p.functions.len() };
    let new_body = crate::decompose_aborts::stood_in(f.body, s.replaced);
    assert(crate::cutting::begins_with(s.p.functions, p.functions)) by {
        reveal(crate::cutting::leads_to);
    }
    lemma_behind_stays(p, s.p, id, new_body);
    crate::bundle_meaning::lemma_from(w, start, s, c.from);
    assert(r.functions == s.p.with_body_of(id, new_body).functions);
    lemma_fair(p, r, c);
    assert(crate::bundle_meaning::is_within(s, c));
    lemma_stand_ins_mean(w, start, s, c);
    law_standing_in_keeps_the_value(f.body, s.replaced, env, m);
    assert forall|x: Name| (#[trigger] crate::assoc::found(none, x)) is None by {}
    assert forall|x: Name| !(#[trigger] crate::written_meaning::in_content(none, x)) by {
        crate::written_meaning::lemma_no_content(x);
    }
    crate::ensures_meaning::lemma_on_shows(
        f.body,
        start,
        known,
        none,
        path,
        None,
        depth,
        env,
        env,
        c,
        names,
    );
    assert(crate::bundle_meaning::path_holds(path, env, m));
    let kept = q->0.kept(s.obs, s.obs.len());
    lemma_kept_elsewhere(q->0, s.obs);
    lemma_renumbered_shows(
        q->0,
        f.body,
        env,
        env,
        s.obs,
        true,
        m,
        |i: nat| q->0.rank(i),
        kept,
    );
    if crate::bundle_meaning::all_hold(kept, env, m, pre) {
        crate::ensures_meaning::law_a_proof_shows_the_proposition(
            q->0.compacted(),
            f.body,
            env,
            env,
            kept,
            m,
            pre,
        );
    }
}

/// Whether every call that stands for a part of a body has the value of the part.
pub open spec fn stand_ins_mean(replaced: Seq<(Node, Node)>, m: Model) -> bool {
    forall|i: int, env: Env|
        0 <= i < replaced.len() ==> #[trigger] crate::meaning::eval(replaced[i].1, env, m)
            == crate::meaning::eval(replaced[i].0, env, m)
}

/// What stands for an expression has its value.
proof fn lemma_stand_in(replaced: Seq<(Node, Node)>, n: Node, env: Env, m: Model)
    requires
        stand_ins_mean(replaced, m),
    ensures
        crate::decompose_aborts::stand_in(replaced, n) matches Some(k) ==> crate::meaning::eval(
            k,
            env,
            m,
        ) == crate::meaning::eval(n, env, m),
    decreases replaced.len(),
{
    if replaced.len() > 0 {
        let front = replaced.drop_last();
        assert forall|i: int, e: Env| 0 <= i < front.len() implies #[trigger] crate::meaning::eval(
            front[i].1,
            e,
            m,
        ) == crate::meaning::eval(front[i].0, e, m) by {
            assert(front[i] == replaced[i]);
            assert(crate::meaning::eval(replaced[i].1, e, m) == crate::meaning::eval(
                replaced[i].0,
                e,
                m,
            ));
        }
        lemma_stand_in(front, n, env, m);
        let last = replaced.len() - 1;
        assert(crate::meaning::eval(replaced[last].1, env, m) == crate::meaning::eval(
            replaced[last].0,
            env,
            m,
        ));
    }
}

/// A body with calls in the place of parts has the value of the body.
pub proof fn law_standing_in_keeps_the_value(
    n: Node,
    replaced: Seq<(Node, Node)>,
    env: Env,
    m: Model,
)
    requires
        stand_ins_mean(replaced, m),
    ensures
        crate::meaning::eval(crate::decompose_aborts::stood_in(n, replaced), env, m)
            == crate::meaning::eval(n, env, m),
    decreases n,
{
    lemma_stand_in(replaced, n, env, m);
    n.lemma_kids_decrease();
    let ks = crate::decompose_aborts::stood_in_kids(n, replaced);
    if crate::decompose_aborts::stand_in(replaced, n) is None {
        if n is Var {
            assert(n.with_kids(ks) == n);
        } else {
            assert(crate::written_meaning::same_parts(n, ks, env, env, m)) by {
                assert forall|i: int, v: Val, vs: Seq<Val>|
                    0 <= i < ks.len() implies crate::meaning::eval(
                    ks[i],
                    #[trigger] crate::written_meaning::around(n, i, env, v, vs),
                    m,
                ) == crate::meaning::eval(
                    n.kids()[i],
                    crate::written_meaning::around(n, i, env, v, vs),
                    m,
                ) by {
                    law_standing_in_keeps_the_value(
                        n.kids()[i],
                        replaced,
                        crate::written_meaning::around(n, i, env, v, vs),
                        m,
                    );
                }
            }
            crate::written_meaning::lemma_rebuilt(n, ks, env, env, m);
        }
    }
}

/// Calls that stand for parts that new functions are made of have the values of the parts.
proof fn lemma_stand_ins_mean(w: Whole, s: St, t: St, c: Reading)
    requires
        crate::cutting::leads_to(w, s, t),
        s.replaced.len() == 0,
        c.end == t.p,
        c.from == s.p.functions.len(),
        crate::meaning::reads_from(c.m, c.end, c.from),
    ensures
        stand_ins_mean(t.replaced, c.m),
{
    reveal(crate::cutting::leads_to);
    assert forall|i: int, env: Env|
        0 <= i < t.replaced.len() implies #[trigger] crate::meaning::eval(
        t.replaced[i].1,
        env,
        c.m,
    ) == crate::meaning::eval(t.replaced[i].0, env, c.m) by {
        let pair = t.replaced[i];
        assert(crate::cutting::stands_for_part(pair, t.p, s.p.functions.len()));
        let j = choose|j: int|
            s.p.functions.len() <= j < t.p.functions.len() && crate::cutting::is_own_call(
                #[trigger] t.p.functions[j],
                pair.0,
                pair.1,
            );
        let g = t.p.functions[j];
        let xs = crate::meaning::given_names(g.1);
        assert(crate::meaning::reads_as(c.m, g.0, g.1));
        let named = Named { body: pair.0, params: xs, id: g.0 };
        assert(reads_name(named, c.m)) by {
            assert forall|ts: Seq<Ty>, vs: Seq<Val>| #[trigger]
                (c.m.call)(g.0, ts, vs) == crate::meaning::eval(
                    pair.0,
                    crate::meaning::set_all(|x: Name| Val::Nothing, xs, vs, xs.len()),
                    c.m,
                ) by {
                assert((c.m.call)(g.0, ts, vs) == crate::meaning::eval(
                    g.1.body,
                    crate::meaning::given(g.1, vs),
                    c.m,
                ));
            }
        }
        lemma_named_call(g.0, pair.0, xs, env, c.m);
    }
}

/// Whether two expressions have the same value, whatever their variables are.
pub open spec fn mean_the_same(a: Node, b: Node, m: Model) -> bool {
    forall|env: Env| #[trigger]
        crate::meaning::eval(a, env, m) == crate::meaning::eval(b, env, m)
}

/// A step before expressions that mean the same, with scrutinees that do, means the same.
proof fn lemma_stepped_means(a: StepOf, x: Node, b: StepOf, y: Node, m: Model)
    requires
        mean_the_same(x, y, m),
        match (a, b) {
            (StepOf::Bind { pattern, value }, StepOf::Bind { pattern: q, value: v }) => pattern
                == q && mean_the_same(value, v, m),
            (
                StepOf::Check { scrutinee, binding, some_branch },
                StepOf::Check { scrutinee: c, binding: z, some_branch: t },
            ) => binding == z && some_branch == t && mean_the_same(scrutinee, c, m),
            _ => false,
        },
    ensures
        mean_the_same(
            crate::spine_cuts::stepped(a, x),
            crate::spine_cuts::stepped(b, y),
            m,
        ),
{
    let (n, k) = (crate::spine_cuts::stepped(a, x), crate::spine_cuts::stepped(b, y));
    assert forall|env: Env| #[trigger] crate::meaning::eval(n, env, m) == crate::meaning::eval(
        k,
        env,
        m,
    ) by {
        match (a, b) {
            (StepOf::Bind { pattern, value }, StepOf::Bind { pattern: q, value: v }) => {
                assert(crate::meaning::eval(value, env, m) == crate::meaning::eval(v, env, m));
                let inner = crate::meaning::bound(
                    env,
                    pattern,
                    crate::meaning::eval(value, env, m),
                );
                assert(crate::meaning::eval(x, inner, m) == crate::meaning::eval(y, inner, m));
            },
            (
                StepOf::Check { scrutinee, binding, some_branch },
                StepOf::Check { scrutinee: c, binding: z, some_branch: t },
            ) => {
                assert(crate::meaning::eval(scrutinee, env, m) == crate::meaning::eval(c, env, m));
                assert(crate::meaning::eval(x, env, m) == crate::meaning::eval(y, env, m));
                crate::meaning::lemma_match_option(scrutinee, binding, some_branch, x, env, m);
                crate::meaning::lemma_match_option(c, z, t, y, env, m);
            },
            _ => {},
        }
    }
}

/// Steps before expressions that mean the same mean the same.
proof fn lemma_steps_mean(steps: Seq<StepOf>, x: Node, y: Node, m: Model)
    requires
        mean_the_same(x, y, m),
    ensures
        mean_the_same(
            crate::spine_cuts::rebuilt(steps, x),
            crate::spine_cuts::rebuilt(steps, y),
            m,
        ),
    decreases steps.len(),
{
    if steps.len() > 0 {
        lemma_stepped_means(steps.last(), x, steps.last(), y, m);
        lemma_steps_mean(
            steps.drop_last(),
            crate::spine_cuts::stepped(steps.last(), x),
            crate::spine_cuts::stepped(steps.last(), y),
            m,
        );
    }
}

/// Steps in two parts stand one behind the other.
proof fn lemma_rebuilt_parts(a: Seq<StepOf>, b: Seq<StepOf>, tail: Node)
    ensures
        crate::spine_cuts::rebuilt(a + b, tail) == crate::spine_cuts::rebuilt(
            a,
            crate::spine_cuts::rebuilt(b, tail),
        ),
    decreases b.len(),
{
    if b.len() > 0 {
        let all = a + b;
        assert(all.last() == b.last());
        assert(all.drop_last() =~= a + b.drop_last());
        lemma_rebuilt_parts(a, b.drop_last(), crate::spine_cuts::stepped(b.last(), tail));
    } else {
        assert(a + b =~= a);
    }
}

/// The call of a segment with its own parameters means what the segment is made of.
proof fn lemma_segment_call_means(s: St, n: Node, known: Known, c: Reading)
    requires
        crate::meaning::reads_from(c.m, c.end, c.from),
        c.from <= s.p.functions.len(),
        crate::bundle_meaning::is_within(crate::segments::segment_made(s, c.w, n, known).1, c),
    ensures
        ({
            let (id, t) = crate::segments::segment_made(s, c.w, n, known);
            id matches Some(f) ==> mean_the_same(
                crate::segments::segment_call(t.p, f),
                n,
                c.m,
            )
        }),
{
    let (id, t) = crate::segments::segment_made(s, c.w, n, known);
    if let Some(f) = id {
        crate::bundle_meaning::lemma_segment_made(s, c.w, n, known);
        let last = t.p.functions.len() - 1;
        let g = t.p.functions[last];
        let xs = crate::meaning::given_names(g.1);
        crate::bundle_meaning::lemma_segment_covers(g.1, n, known, c.w);
        crate::program::lemma_slot_exists(t.p.functions, f, last);
        assert(c.end.functions[last] == g);
        assert(crate::meaning::reads_as(c.m, f, g.1));
        let named = Named { body: n, params: xs, id: f };
        assert(reads_name(named, c.m)) by {
            assert forall|ts: Seq<Ty>, vs: Seq<Val>| #[trigger]
                (c.m.call)(f, ts, vs) == crate::meaning::eval(
                    n,
                    crate::meaning::set_all(|x: Name| Val::Nothing, xs, vs, xs.len()),
                    c.m,
                ) by {
                assert((c.m.call)(f, ts, vs) == crate::meaning::eval(
                    g.1.body,
                    crate::meaning::given(g.1, vs),
                    c.m,
                ));
            }
        }
        let call = crate::segments::segment_call(t.p, f);
        assert(call == crate::segments::call_on(f, xs));
        assert forall|env: Env| #[trigger] crate::meaning::eval(call, env, c.m)
            == crate::meaning::eval(n, env, c.m) by {
            lemma_named_call(f, n, xs, env, c.m);
        }
    }
}

/// A chain of segments means what its steps and what stands behind them mean.
proof fn lemma_chain_means(
    s: St,
    steps: Seq<StepOf>,
    cuts: Seq<nat>,
    scopes: Seq<Known>,
    j: nat,
    tail: Node,
    c: Reading,
)
    requires
        crate::meaning::reads_from(c.m, c.end, c.from),
        c.from <= s.p.functions.len(),
        j + 1 < cuts.len(),
        cuts[0] == 0,
        forall|k: int|
            0 <= k < cuts.len() - 1 ==> #[trigger] crate::spine_cuts::ends_within(
                cuts,
                k,
                steps.len(),
            ),
        crate::bundle_meaning::is_within(
            crate::spine_cuts::chain_made(s, c.w, steps, cuts, scopes, j, tail).1,
            c,
        ),
    ensures
        ({
            let (id, t) = crate::spine_cuts::chain_made(s, c.w, steps, cuts, scopes, j, tail);
            id matches Some(f) ==> mean_the_same(
                crate::segments::segment_call(t.p, f),
                crate::spine_cuts::rebuilt(
                    steps.subrange(0, cuts[j as int + 1] as int),
                    tail,
                ),
                c.m,
            )
        }),
    decreases j,
{
    let (from, to) = (cuts[j as int] as int, cuts[j as int + 1] as int);
    assert(crate::spine_cuts::ends_within(cuts, j as int, steps.len()));
    let part = steps.subrange(from, to);
    let body = crate::spine_cuts::rebuilt(part, tail);
    let scope = scopes[from];
    let (id, s1) = crate::segments::segment_made(s, c.w, body, scope);
    let (got, t) = crate::spine_cuts::chain_made(s, c.w, steps, cuts, scopes, j, tail);
    crate::cutting::lemma_segment(s, c.w, body, scope);
    crate::bundle_meaning::lemma_from(c.w, s, s1, c.from);
    if j == 0 {
        lemma_segment_call_means(s, body, scope, c);
    } else {
        let next = match id {
            Some(f) => crate::segments::segment_call(s1.p, f),
            None => body,
        };
        crate::cutting::lemma_chain(s1, c.w, steps, cuts, scopes, (j - 1) as nat, next);
        crate::bundle_meaning::lemma_within(s1, t, c);
        lemma_segment_call_means(s, body, scope, c);
        lemma_chain_means(s1, steps, cuts, scopes, (j - 1) as nat, next, c);
        let front = steps.subrange(0, from);
        assert(mean_the_same(next, body, c.m));
        lemma_steps_mean(front, next, body, c.m);
        lemma_rebuilt_parts(front, part, tail);
        assert(front + part =~= steps.subrange(0, to));
        if let Some(f) = got {
            let call = crate::segments::segment_call(t.p, f);
            let whole = crate::spine_cuts::rebuilt(steps.subrange(0, to), tail);
            assert forall|env: Env| #[trigger] crate::meaning::eval(call, env, c.m)
                == crate::meaning::eval(whole, env, c.m) by {
                assert(crate::meaning::eval(
                    crate::spine_cuts::rebuilt(front, next),
                    env,
                    c.m,
                ) == crate::meaning::eval(crate::spine_cuts::rebuilt(front, body), env, c.m));
            }
        }
    }
}

/// A long part that is cut out means what it did.
proof fn lemma_cut_out_means(n: Node, s: St, known: Known, c: Reading)
    requires
        crate::meaning::reads_from(c.m, c.end, c.from),
        c.from <= s.p.functions.len(),
        crate::bundle_meaning::is_within(crate::spine_cuts::cut_out(n, s, c.w, known).1, c),
    ensures
        mean_the_same(crate::spine_cuts::cut_out(n, s, c.w, known).0, n, c.m),
    decreases n, 2nat,
{
    if crate::sizes::text_len(n) > crate::spine_cuts::CHUNK {
        lemma_segmented_means(n, s, known, c);
    }
}

/// What is left of an expression whose long parts are cut out means what it did.
proof fn lemma_shrunk_means(n: Node, s: St, scopes: Seq<Known>, i: nat, c: Reading)
    requires
        crate::meaning::reads_from(c.m, c.end, c.from),
        c.from <= s.p.functions.len(),
        crate::bundle_meaning::is_within(crate::spine_cuts::shrunk(n, s, c.w, scopes, i).2, c),
    ensures
        ({
            let (steps, end, t) = crate::spine_cuts::shrunk(n, s, c.w, scopes, i);
            mean_the_same(crate::spine_cuts::rebuilt(steps, end), n, c.m)
        }),
    decreases n, 0nat,
{
    let (steps, end, t) = crate::spine_cuts::shrunk(n, s, c.w, scopes, i);
    match n {
        Node::Let { pattern, value, body } => {
            let (rest, last, s1) = crate::spine_cuts::shrunk(*body, s, c.w, scopes, i + 1);
            let first = StepOf::Bind { pattern, value: *value };
            lemma_shrunk_means(*body, s, scopes, i + 1, c);
            crate::spine_cuts::lemma_rebuilt_front(first, rest, last);
            assert(mean_the_same(*value, *value, c.m));
            lemma_stepped_means(
                first,
                crate::spine_cuts::rebuilt(rest, last),
                first,
                *body,
                c.m,
            );
        },
        Node::MatchOption { scrutinee, binding, some_branch, none_branch } => {
            let (k, s1) = crate::spine_cuts::cut_out(*scrutinee, s, c.w, scopes[i as int]);
            let (rest, last, s2) = crate::spine_cuts::shrunk(*none_branch, s1, c.w, scopes, i + 1);
            crate::cutting::lemma_cut_out(*scrutinee, s, c.w, scopes[i as int]);
            crate::bundle_meaning::lemma_from(c.w, s, s1, c.from);
            crate::cutting::lemma_shrunk(*none_branch, s1, c.w, scopes, i + 1);
            crate::bundle_meaning::lemma_within(s1, s2, c);
            lemma_cut_out_means(*scrutinee, s, scopes[i as int], c);
            lemma_shrunk_means(*none_branch, s1, scopes, i + 1, c);
            let a = StepOf::Check { scrutinee: k, binding, some_branch: *some_branch };
            let b = StepOf::Check { scrutinee: *scrutinee, binding, some_branch: *some_branch };
            crate::spine_cuts::lemma_rebuilt_front(a, rest, last);
            lemma_stepped_means(
                a,
                crate::spine_cuts::rebuilt(rest, last),
                b,
                *none_branch,
                c.m,
            );
        },
        Node::If { cond, then_branch, else_branch } => {
            let scope = scopes[i as int];
            let (x, s1) = if crate::spine_cuts::abort_shows(*then_branch) {
                (*then_branch, s)
            } else {
                crate::spine_cuts::cut_out(*then_branch, s, c.w, scope)
            };
            let (y, s2) = if crate::spine_cuts::abort_shows(*else_branch) {
                (*else_branch, s1)
            } else {
                crate::spine_cuts::cut_out(*else_branch, s1, c.w, scope)
            };
            crate::cutting::lemma_stays(c.w, s);
            crate::cutting::lemma_stays(c.w, s1);
            crate::cutting::lemma_cut_out(*then_branch, s, c.w, scope);
            crate::bundle_meaning::lemma_from(c.w, s, s1, c.from);
            crate::cutting::lemma_cut_out(*else_branch, s1, c.w, scope);
            crate::bundle_meaning::lemma_within(s1, s2, c);
            if !crate::spine_cuts::abort_shows(*then_branch) {
                lemma_cut_out_means(*then_branch, s, scope, c);
            }
            if !crate::spine_cuts::abort_shows(*else_branch) {
                lemma_cut_out_means(*else_branch, s1, scope, c);
            }
            assert(mean_the_same(x, *then_branch, c.m));
            assert(mean_the_same(y, *else_branch, c.m));
            let k = Node::If { cond, then_branch: Box::new(x), else_branch: Box::new(y) };
            assert forall|env: Env| #[trigger] crate::meaning::eval(k, env, c.m)
                == crate::meaning::eval(n, env, c.m) by {
                assert(crate::meaning::eval(x, env, c.m) == crate::meaning::eval(
                    *then_branch,
                    env,
                    c.m,
                ));
                assert(crate::meaning::eval(y, env, c.m) == crate::meaning::eval(
                    *else_branch,
                    env,
                    c.m,
                ));
            }
        },
        _ => {},
    }
}

/// The first of the segments that an expression is cut into means the expression.
proof fn lemma_segmented_means(n: Node, s: St, known: Known, c: Reading)
    requires
        crate::meaning::reads_from(c.m, c.end, c.from),
        c.from <= s.p.functions.len(),
        crate::bundle_meaning::is_within(crate::spine_cuts::segmented(n, s, c.w, known).1, c),
    ensures
        ({
            let (id, t) = crate::spine_cuts::segmented(n, s, c.w, known);
            id matches Some(f) ==> mean_the_same(
                crate::segments::segment_call(t.p, f),
                n,
                c.m,
            )
        }),
    decreases n, 1nat,
{
    if crate::spine_cuts::typed(c.w, n, known) {
        let scopes = crate::spine_cuts::scopes_at(n, known, s.p);
        let (steps, end, s1) = crate::spine_cuts::shrunk(n, s, c.w, scopes, 0);
        let cuts = crate::spine_cuts::bounds(steps, end);
        crate::spine_cuts::law_segments_partition(steps, end);
        let j = (cuts.len() - 2) as nat;
        let (id, t) = crate::spine_cuts::chain_made(s1, c.w, steps, cuts, scopes, j, end);
        crate::cutting::lemma_shrunk(n, s, c.w, scopes, 0);
        crate::bundle_meaning::lemma_from(c.w, s, s1, c.from);
        crate::cutting::lemma_chain(s1, c.w, steps, cuts, scopes, j, end);
        crate::bundle_meaning::lemma_within(s1, t, c);
        lemma_shrunk_means(n, s, scopes, 0, c);
        lemma_chain_means(s1, steps, cuts, scopes, j, end, c);
        assert(steps.subrange(0, steps.len() as int) =~= steps);
        if let Some(f) = id {
            let call = crate::segments::segment_call(t.p, f);
            assert forall|env: Env| #[trigger] crate::meaning::eval(call, env, c.m)
                == crate::meaning::eval(n, env, c.m) by {
                assert(crate::meaning::eval(
                    crate::spine_cuts::rebuilt(steps, end),
                    env,
                    c.m,
                ) == crate::meaning::eval(n, env, c.m));
            }
        }
    }
}

/// Cutting an expression into a chain of segments keeps its value: the first of the segments,
/// called with its own parameters, computes what the expression does, where the model takes
/// the segments for their bodies.
pub proof fn law_cutting_keeps_the_value(
    n: Node,
    s: St,
    w: Whole,
    known: Known,
    env: Env,
    m: Model,
)
    requires
        crate::meaning::reads_from(
            m,
            crate::spine_cuts::segmented(n, s, w, known).1.p,
            s.p.functions.len(),
        ),
    ensures
        ({
            let (id, t) = crate::spine_cuts::segmented(n, s, w, known);
            id matches Some(f) ==> crate::meaning::eval(
                crate::segments::segment_call(t.p, f),
                env,
                m,
            ) == crate::meaning::eval(n, env, m)
        }),
{
    let (id, t) = crate::spine_cuts::segmented(n, s, w, known);
    let c = crate::bundle_meaning::reading_of(w, s, t, env, m);
    crate::cutting::lemma_segmented(n, s, w, known);
    crate::bundle_meaning::lemma_from(w, s, t, s.p.functions.len());
    lemma_segmented_means(n, s, known, c);
    if let Some(f) = id {
        let call = crate::segments::segment_call(t.p, f);
        assert(mean_the_same(call, n, m));
        assert(crate::meaning::eval(call, env, m) == crate::meaning::eval(n, env, m));
    }
}

} // verus!
