//! Writing out the values of variables keeps what expressions mean.

use crate::ir::Node;
use crate::meaning::{Env, Model, Val};
use crate::substitution::Subst;
use crate::types::{Name, StructID};
use vstd::prelude::*;

verus! {

/// The values of variables around the `i`th part of an expression, where the names that
/// are bound there take values.
pub open spec fn around(n: Node, i: int, env: Env, v: Val, vs: Seq<Val>) -> Env {
    match n {
        Node::Let { pattern, .. } => if i == 1 {
            crate::meaning::bound(env, pattern, v)
        } else {
            env
        },
        Node::MatchOption { binding, .. } => if i == 1 {
            crate::meaning::set(env, binding, v)
        } else {
            env
        },
        Node::Match { cases, .. } => if 1 <= i <= cases.len() {
            crate::meaning::set_all(env, cases[i - 1].1, vs, cases[i - 1].1.len())
        } else {
            env
        },
        _ => crate::meaning::set_all(
            env,
            crate::meaning::names_around(n, i),
            vs,
            crate::meaning::names_around(n, i).len(),
        ),
    }
}

/// Around a part the names that are bound there have new values, and the others keep
/// theirs.
pub proof fn lemma_around(n: Node, i: int, a: Env, b: Env, v: Val, vs: Seq<Val>, x: Name)
    requires
        0 <= i < n.kids().len(),
    ensures
        !n.binds(i, x) ==> around(n, i, a, v, vs)(x) == a(x),
        n.binds(i, x) ==> around(n, i, a, v, vs)(x) == around(n, i, b, v, vs)(x),
{
    match n {
        Node::Let { pattern, .. } => {
            crate::meaning::lemma_bound(a, b, pattern, v, x);
        },
        Node::MatchOption { .. } => {},
        Node::Match { cases, .. } => {
            if 1 <= i <= cases.len() {
                let xs = cases[i - 1].1;
                assert(xs.subrange(0, xs.len() as int) =~= xs);
                crate::meaning::lemma_set_all(a, b, xs, vs, xs.len(), x);
            }
        },
        _ => {
            let xs = crate::meaning::names_around(n, i);
            assert(xs.subrange(0, xs.len() as int) =~= xs);
            crate::meaning::lemma_set_all(a, b, xs, vs, xs.len(), x);
            crate::meaning::lemma_names_around(n, i, x);
        },
    }
}

/// Whether the parts of an expression mean the same as others, whatever the names that
/// are bound around them are.
pub open spec fn same_parts(n: Node, ks: Seq<Node>, a: Env, b: Env, m: Model) -> bool {
    &&& ks.len() == n.kids().len()
    &&& forall|i: int, v: Val, vs: Seq<Val>|
        0 <= i < ks.len() ==> crate::meaning::eval(ks[i], #[trigger] around(n, i, b, v, vs), m)
            == crate::meaning::eval(n.kids()[i], around(n, i, a, v, vs), m)
}

/// An expression without its parts is the same whatever its parts are.
proof fn lemma_same_shape(n: Node, ks: Seq<Node>)
    requires
        ks.len() == n.kids().len(),
    ensures
        crate::meaning::shape(n.with_kids(ks)) == crate::meaning::shape(n),
        n.with_kids(ks).kids() == ks,
        forall|i: int| crate::meaning::names_around(n.with_kids(ks), i)
            == crate::meaning::names_around(n, i),
{
    n.lemma_with_kids(ks);
    let k = n.with_kids(ks);
    let none = Seq::new(ks.len(), |i: int| Node::OptionNone);
    match n {
        Node::Match { cases, .. } => {
            assert(k.with_kids(none)->Match_cases =~= n.with_kids(none)->Match_cases);
        },
        _ => {},
    }
    assert(k.with_kids(none) == n.with_kids(none));
}

/// An expression with other parts that mean the same means the same.
pub proof fn lemma_rebuilt(n: Node, ks: Seq<Node>, a: Env, b: Env, m: Model)
    requires
        same_parts(n, ks, a, b, m),
        !(n is Var),
    ensures
        crate::meaning::eval(n.with_kids(ks), b, m) == crate::meaning::eval(n, a, m),
{
    let k = n.with_kids(ks);
    let none: Seq<Val> = Seq::empty();
    let nil = Val::Nothing;
    lemma_same_shape(n, ks);
    match n {
        Node::Let { pattern, value, body } => {
            assert(n.kids()[0] == *value && n.kids()[1] == *body);
            assert(around(n, 0, b, nil, none) == b && around(n, 0, a, nil, none) == a);
            let v = crate::meaning::eval(*value, a, m);
            assert(crate::meaning::eval(ks[0], b, m) == v);
            assert(around(n, 1, b, v, none) == crate::meaning::bound(b, pattern, v));
            assert(around(n, 1, a, v, none) == crate::meaning::bound(a, pattern, v));
        },
        Node::MatchOption { scrutinee, binding, some_branch, none_branch } => {
            assert(n.kids()[0] == *scrutinee && n.kids()[1] == *some_branch && n.kids()[2]
                == *none_branch);
            assert(around(n, 0, b, nil, none) == b && around(n, 0, a, nil, none) == a);
            assert(around(n, 2, b, nil, none) == b && around(n, 2, a, nil, none) == a);
            crate::meaning::lemma_match_option(
                *scrutinee,
                binding,
                *some_branch,
                *none_branch,
                a,
                m,
            );
            crate::meaning::lemma_match_option(ks[0], binding, ks[1], ks[2], b, m);
            if let Val::Just(v) = crate::meaning::eval(*scrutinee, a, m) {
                assert(around(n, 1, b, *v, none) == crate::meaning::set(b, binding, *v));
                assert(around(n, 1, a, *v, none) == crate::meaning::set(a, binding, *v));
            }
        },
        Node::Match { scrutinee, cases } => {
            let others = k->Match_cases;
            assert(n.kids()[0] == *scrutinee);
            assert(around(n, 0, b, nil, none) == b && around(n, 0, a, nil, none) == a);
            crate::meaning::lemma_match(*scrutinee, cases, a, m);
            crate::meaning::lemma_match(ks[0], others, b, m);
            let (tag, vs) = (m.variant)(crate::meaning::eval(*scrutinee, a, m));
            crate::meaning::lemma_case_for(cases, others, tag);
            if let Some(i) = crate::meaning::case_for(cases, tag) {
                assert(n.kids()[i + 1] == cases[i].2);
                let xs = cases[i].1;
                assert(others[i].2 == ks[i + 1]);
                assert(around(n, i + 1, b, nil, vs) == crate::meaning::set_all(
                    b,
                    xs,
                    vs,
                    xs.len(),
                ));
                assert(around(n, i + 1, a, nil, vs) == crate::meaning::set_all(
                    a,
                    xs,
                    vs,
                    xs.len(),
                ));
            }
        },
        _ => {
            let x = crate::meaning::parts(n, a, m);
            let y = crate::meaning::parts(k, b, m);
            assert forall|i: int, vs: Seq<Val>| #[trigger] x(i, vs) == y(i, vs) by {
                if 0 <= i < n.kids().len() {
                    assert(around(n, i, b, nil, vs) == crate::meaning::set_all(
                        b,
                        crate::meaning::names_around(n, i),
                        vs,
                        crate::meaning::names_around(n, i).len(),
                    ));
                }
            }
            assert(x =~= y);
            if !(n is Quantifier || n is MutableBorrow) {
                assert forall|i: int| 0 <= i < n.kids().len() implies crate::meaning::values(
                    n,
                    a,
                    m,
                )[i] == crate::meaning::values(k, b, m)[i] by {
                    assert(around(n, i, b, nil, none) == b);
                    assert(around(n, i, a, nil, none) == a);
                }
                assert(crate::meaning::values(n, a, m) =~= crate::meaning::values(k, b, m));
                crate::meaning::lemma_by_kids(n, a, k, b, m);
            }
        },
    }
}

/// Taking a field keeps the value.
proof fn lemma_field_of(struct_id: StructID, field_index: usize, base: Node, env: Env, m: Model)
    requires
        crate::meaning::takes_fields(m),
    ensures
        crate::meaning::eval(
            crate::substitution::field_of(struct_id, field_index, base),
            env,
            m,
        ) == (m.field)(struct_id, field_index, crate::meaning::eval(base, env, m)),
    decreases base,
{
    match base {
        Node::UpdateField { base: inner, struct_id: s, field_index: j, value } => {
            if s == struct_id && j != field_index {
                lemma_field_of(struct_id, field_index, *inner, env, m);
            }
        },
        Node::Pack { struct_id: s, fields, variant_index: None, type_args } => {
            if s == struct_id && field_index < fields.len() {
                let vs = crate::meaning::values(base, env, m);
                assert(base.kids() == fields);
                assert(vs[field_index as int] == crate::meaning::eval(
                    fields[field_index as int],
                    env,
                    m,
                ));
            }
        },
        _ => {},
    }
}

/// Taking the fields of known structures keeps the value.
pub proof fn lemma_projected(n: Node, env: Env, m: Model)
    requires
        crate::meaning::takes_fields(m),
    ensures
        crate::meaning::eval(crate::substitution::projected(n), env, m) == crate::meaning::eval(
            n,
            env,
            m,
        ),
{
    if let Node::Field { struct_id, field_index, base } = n {
        lemma_field_of(struct_id, field_index, *base, env, m);
    }
}

/// Taking all fields of known structures keeps the value.
pub proof fn law_taking_fields_keeps_values(n: Node, env: Env, m: Model)
    requires
        crate::meaning::takes_fields(m),
    ensures
        crate::meaning::eval(crate::substitution::all_projected(n), env, m)
            == crate::meaning::eval(n, env, m),
    decreases n,
{
    let f = |k: Node| crate::substitution::projected(k);
    let ks = n.mapped_kids(f);
    n.lemma_kids_decrease();
    if n is Var {
        assert(n.with_kids(ks) == n);
    } else {
        assert(same_parts(n, ks, env, env, m)) by {
            assert forall|i: int, v: Val, vs: Seq<Val>| 0 <= i < ks.len() implies crate::meaning::eval(
                ks[i],
                #[trigger] around(n, i, env, v, vs),
                m,
            ) == crate::meaning::eval(n.kids()[i], around(n, i, env, v, vs), m) by {
                law_taking_fields_keeps_values(n.kids()[i], around(n, i, env, v, vs), m);
                assert(crate::substitution::all_projected(n.kids()[i]) == n.kids()[i].map(f));
            }
        }
        lemma_rebuilt(n, ks, env, env, m);
        lemma_projected(n.with_kids(ks), env, m);
    }
}

/// A step that keeps every value keeps the value of an expression that it is taken
/// throughout.
pub proof fn lemma_map_means(n: Node, f: spec_fn(Node) -> Node, env: Env, m: Model)
    requires
        forall|k: Node, e: Env| #[trigger]
            crate::meaning::eval(f(k), e, m) == crate::meaning::eval(k, e, m),
    ensures
        crate::meaning::eval(n.map(f), env, m) == crate::meaning::eval(n, env, m),
    decreases n,
{
    let ks = n.mapped_kids(f);
    let k = n.with_kids(ks);
    n.lemma_kids_decrease();
    if n is Var {
        assert(k == n);
    } else {
        assert(same_parts(n, ks, env, env, m)) by {
            assert forall|i: int, v: Val, vs: Seq<Val>| 0 <= i < ks.len() implies crate::meaning::eval(
                ks[i],
                #[trigger] around(n, i, env, v, vs),
                m,
            ) == crate::meaning::eval(n.kids()[i], around(n, i, env, v, vs), m) by {
                lemma_map_means(n.kids()[i], f, around(n, i, env, v, vs), m);
                assert(ks[i] == n.kids()[i].map(f));
            }
        }
        lemma_rebuilt(n, ks, env, env, m);
    }
    assert(crate::meaning::eval(f(k), env, m) == crate::meaning::eval(k, env, m));
}

/// Whether the values that variables stand for are those that they have: one that is
/// written out has the value of its expression, and one that is not given anything keeps
/// its value.
pub open spec fn stands_for(s: Subst, env: Env, base: Env, m: Model) -> bool {
    forall|x: Name| x != "_"@ ==> match #[trigger] crate::assoc::found(s, x) {
        Some(Some(e)) => env(x) == crate::meaning::eval(e, base, m),
        Some(None) => true,
        None => env(x) == base(x),
    }
}

/// Whether a variable is free in what another one stands for.
pub open spec fn in_content(s: Subst, x: Name) -> bool {
    exists|y: Name|
        match #[trigger] crate::assoc::found(s, y) {
            Some(Some(e)) => e.free(x),
            _ => false,
        }
}

/// Whether no name that is bound in an expression is one that is written out, or stands
/// in what is written out.
pub open spec fn clear_of(n: Node, s: Subst) -> bool {
    forall|y: Name| #[trigger]
        crate::meaning::binds_in(n, y) && y != "_"@ ==> crate::assoc::found(s, y) is None
            && !in_content(s, y)
}

/// The step that puts values in the place of variables, and may take fields.
pub open spec fn put_in(k: Node, s: Subst, fields: bool) -> Node {
    if fields {
        crate::substitution::substituted_here(k, s)
    } else {
        crate::substitution::written_out(k, s)
    }
}

/// What holds around an expression holds around its parts.
proof fn lemma_stands_around(
    n: Node,
    i: int,
    s: Subst,
    env: Env,
    base: Env,
    m: Model,
    v: Val,
    vs: Seq<Val>,
)
    requires
        0 <= i < n.kids().len(),
        stands_for(s, env, base, m),
        clear_of(n, s),
    ensures
        stands_for(s, around(n, i, env, v, vs), around(n, i, base, v, vs), m),
        clear_of(n.kids()[i], s),
{
    let a = around(n, i, env, v, vs);
    let b = around(n, i, base, v, vs);
    assert forall|x: Name| x != "_"@ implies match #[trigger] crate::assoc::found(s, x) {
        Some(Some(e)) => a(x) == crate::meaning::eval(e, b, m),
        Some(None) => true,
        None => a(x) == b(x),
    } by {
        lemma_around(n, i, env, base, v, vs, x);
        lemma_around(n, i, base, env, v, vs, x);
        crate::meaning::lemma_binds_in(n, i, x);
        if n.binds(i, x) {
            assert(crate::meaning::binds_in(n, x));
        }
        if let Some(Some(e)) = crate::assoc::found(s, x) {
            assert(crate::meaning::agree(e, b, base)) by {
                assert forall|z: Name| #[trigger] e.free(z) && z != "_"@ implies b(z) == base(
                    z,
                ) by {
                    lemma_around(n, i, base, env, v, vs, z);
                    crate::meaning::lemma_binds_in(n, i, z);
                    if n.binds(i, z) {
                        assert(crate::meaning::binds_in(n, z));
                        assert(in_content(s, z));
                    }
                }
            }
            crate::meaning::lemma_agree(e, b, base, m);
        }
    }
    assert forall|y: Name| #[trigger] crate::meaning::binds_in(n.kids()[i], y) && y
        != "_"@ implies crate::assoc::found(s, y) is None && !in_content(s, y) by {
        crate::meaning::lemma_binds_in(n, i, y);
        assert(crate::meaning::binds_in(n, y));
    }
}

/// A name that is not used in an expression is not used in a part of it.
pub proof fn lemma_unused_in_part(n: Node, i: int, x: Name)
    requires
        0 <= i < n.kids().len(),
        !n.uses(x),
    ensures
        !n.kids()[i].uses(x),
{
    let t = |k: Node| k.uses_here(x);
    if n.kids()[i].uses(x) {
        assert(n.kids()[i].any(t));
        assert(n.any_kid(t));
    }
}

/// Putting values in the place of variables keeps the value of an expression.
pub proof fn lemma_put_in(n: Node, s: Subst, env: Env, base: Env, m: Model, fields: bool)
    requires
        crate::meaning::takes_fields(m),
        stands_for(s, env, base, m),
        clear_of(n, s),
        !n.uses("_"@),
        !crate::substitution::mentions_opaque(n, s),
    ensures
        crate::meaning::eval(n.map(|k: Node| put_in(k, s, fields)), base, m)
            == crate::meaning::eval(n, env, m),
    decreases n,
{
    let f = |k: Node| put_in(k, s, fields);
    let ks = n.mapped_kids(f);
    n.lemma_kids_decrease();
    if let Node::Var(x) = n {
        assert(n.with_kids(ks) == n);
        assert(n.free(x));
        assert(x != "_"@) by {
            let t = |k: Node| k.uses_here("_"@);
            if x == "_"@ {
                assert(t(n));
            }
        }
    } else {
        assert(same_parts(n, ks, env, base, m)) by {
            assert forall|i: int, v: Val, vs: Seq<Val>| 0 <= i < ks.len() implies crate::meaning::eval(
                ks[i],
                #[trigger] around(n, i, base, v, vs),
                m,
            ) == crate::meaning::eval(n.kids()[i], around(n, i, env, v, vs), m) by {
                let kid = n.kids()[i];
                lemma_stands_around(n, i, s, env, base, m, v, vs);
                lemma_unused_in_part(n, i, "_"@);
                assert(!crate::substitution::mentions_opaque(kid, s)) by {
                    assert forall|x: Name| #[trigger] kid.free(x) implies crate::assoc::found(s, x)
                        != Some(None::<Node>) by {
                        if n.binds(i, x) {
                            crate::meaning::lemma_binds_in(n, i, x);
                            assert(crate::meaning::binds_in(n, x));
                            if x == "_"@ {
                                lemma_free_used(kid, x);
                            }
                        } else {
                            assert(n.free(x));
                        }
                    }
                }
                lemma_put_in(kid, s, around(n, i, env, v, vs), around(n, i, base, v, vs), m, fields);
                assert(ks[i] == kid.map(f));
            }
        }
        lemma_rebuilt(n, ks, env, base, m);
        lemma_projected(n.with_kids(ks), base, m);
        assert(!(n.with_kids(ks) is Var));
    }
}

/// A free variable is used.
pub proof fn lemma_free_used(n: Node, x: Name)
    requires
        n.free(x),
    ensures
        n.uses(x),
    decreases n,
{
    n.lemma_kids_decrease();
    let t = |k: Node| k.uses_here(x);
    if n.uses_here(x) {
        assert(t(n));
    } else {
        let i = choose|i: int|
            0 <= i < n.kids().len() && (#[trigger] n.kids()[i]).free(x) && !n.binds(i, x);
        lemma_free_used(n.kids()[i], x);
        assert(n.kids()[i].any(t));
        assert(n.any_kid(t));
    }
}

/// What is written out has the value of what it was written out from, where the names
/// that are bound in it are others than those that are written out, and than those that
/// stand in what is written out.
pub proof fn law_writing_out_keeps_values(n: Node, s: Subst, env: Env, base: Env, m: Model)
    requires
        crate::meaning::takes_fields(m),
        stands_for(s, env, base, m),
        clear_of(n, s),
        !n.uses("_"@),
    ensures
        crate::substitution::substituted(n, s) matches Some(e) ==> crate::meaning::eval(
            e,
            base,
            m,
        ) == crate::meaning::eval(n, env, m),
{
    if !crate::substitution::mentions_opaque(n, s) {
        lemma_put_in(n, s, env, base, m, true);
        let f = |k: Node| put_in(k, s, true);
        let g = |k: Node| crate::substitution::substituted_here(k, s);
        assert(f =~= g);
        law_taking_fields_keeps_values(n.map(g), base, m);
    }
}

/// What a list gives to a name once another value is put into it.
pub proof fn lemma_found_put<T>(s: Seq<(Name, T)>, x: Name, v: T, y: Name)
    ensures
        crate::assoc::found(crate::assoc::put(s, x, v), y) == if x == y {
            Some(v)
        } else {
            crate::assoc::found(s, y)
        },
{
    let ks = crate::assoc::keys(s);
    let t = crate::assoc::put(s, x, v);
    lemma_first_at(ks, x);
    lemma_first_at(ks, y);
    match crate::assoc::first_at(ks, x) {
        Some(i) => {
            assert(crate::assoc::keys(t) =~= ks);
        },
        None => {
            assert(crate::assoc::keys(t) =~= ks.push(x));
            assert(ks.push(x).drop_last() =~= ks);
        },
    }
}

/// At the first position at which a name stands it stands.
proof fn lemma_first_at(ks: Seq<Name>, x: Name)
    ensures
        crate::assoc::first_at(ks, x) matches Some(i) ==> i < ks.len() && ks[i as int] == x,
    decreases ks.len(),
{
    if ks.len() > 0 {
        lemma_first_at(ks.drop_last(), x);
    }
}

/// Other parts are bound around by the same names.
proof fn lemma_with_kids_binds(n: Node, ks: Seq<Node>, i: int, x: Name)
    requires
        ks.len() == n.kids().len(),
    ensures
        n.with_kids(ks).binds(i, x) == n.binds(i, x),
        n.with_kids(ks).uses_here(x) == n.uses_here(x),
{
}

/// The variables of a field that is taken are those of the structure.
proof fn lemma_field_of_free(struct_id: StructID, field_index: usize, base: Node, x: Name)
    requires
        crate::substitution::field_of(struct_id, field_index, base).free(x),
    ensures
        base.free(x),
    decreases base,
{
    base.lemma_kids_decrease();
    let field = Node::Field { struct_id, field_index, base: Box::new(base) };
    let e = crate::substitution::field_of(struct_id, field_index, base);
    if e == field {
        let i = choose|i: int|
            0 <= i < field.kids().len() && (#[trigger] field.kids()[i]).free(x) && !field.binds(
                i,
                x,
            );
        assert(field.kids()[i] == base);
    } else {
        match base {
            Node::UpdateField { base: inner, field_index: j, value, .. } => {
                if j != field_index {
                    lemma_field_of_free(struct_id, field_index, *inner, x);
                    assert(base.kids()[0] == *inner);
                    assert(base.kids()[0].free(x) && !base.binds(0, x));
                } else {
                    assert(base.kids()[1] == *value);
                    assert(base.kids()[1].free(x) && !base.binds(1, x));
                }
            },
            Node::Pack { fields, .. } => {
                assert(base.kids()[field_index as int].free(x) && !base.binds(
                    field_index as int,
                    x,
                ));
            },
            _ => {},
        }
    }
}

/// Putting values in the place of variables brings in no variables but those of the
/// values.
pub proof fn lemma_put_in_free(n: Node, s: Subst, fields: bool, x: Name)
    requires
        n.map(|k: Node| put_in(k, s, fields)).free(x),
    ensures
        n.free(x) || in_content(s, x),
    decreases n,
{
    let f = |k: Node| put_in(k, s, fields);
    let ks = n.mapped_kids(f);
    let k = n.with_kids(ks);
    n.lemma_kids_decrease();
    n.lemma_with_kids(ks);
    if let Node::Var(y) = n {
        assert(k == n);
        if let Some(Some(e)) = crate::assoc::found(s, y) {
            assert(in_content(s, x));
        }
    } else {
        assert(!(k is Var));
        assert(k.free(x)) by {
            if let Node::Field { struct_id, field_index, base } = k {
                if fields {
                    lemma_field_of_free(struct_id, field_index, *base, x);
                    assert(k.kids()[0] == *base);
                    assert(k.kids()[0].free(x) && !k.binds(0, x));
                }
            }
        }
        lemma_with_kids_binds(n, ks, 0, x);
        if !k.uses_here(x) {
            let i = choose|i: int|
                0 <= i < k.kids().len() && (#[trigger] k.kids()[i]).free(x) && !k.binds(i, x);
            lemma_with_kids_binds(n, ks, i, x);
            assert(ks[i] == n.kids()[i].map(f));
            lemma_put_in_free(n.kids()[i], s, fields, x);
            if n.kids()[i].free(x) {
                assert(n.free_in_kid(x));
            }
        }
    }
}

/// Taking all fields of known structures is writing out nothing.
pub proof fn lemma_all_projected(n: Node)
    ensures
        crate::substitution::all_projected(n) == n.map(|k: Node| put_in(k, Seq::empty(), true)),
{
    let none: Subst = Seq::empty();
    let f = |k: Node| crate::substitution::projected(k);
    let g = |k: Node| put_in(k, none, true);
    assert forall|k: Node| #[trigger] f(k) == g(k) by {
        if let Node::Var(x) = k {
            assert(crate::assoc::found(none, x) is None);
        }
    }
    assert(f =~= g);
}

/// Nothing stands in what is written out where nothing is.
pub proof fn lemma_no_content(x: Name)
    ensures
        !in_content(Seq::empty(), x),
{
    let none: Subst = Seq::empty();
    assert forall|y: Name| (#[trigger] crate::assoc::found(none, y)) is None by {}
}

/// What is written out mentions no variables but those of the expression and of the
/// values.
pub proof fn lemma_substituted_free(n: Node, s: Subst, x: Name)
    requires
        crate::substitution::substituted(n, s) matches Some(e) && e.free(x),
    ensures
        n.free(x) || in_content(s, x),
{
    let f = |k: Node| put_in(k, s, true);
    let g = |k: Node| crate::substitution::substituted_here(k, s);
    assert(f =~= g);
    let k = n.map(g);
    lemma_all_projected(k);
    lemma_put_in_free(k, Seq::empty(), true, x);
    lemma_no_content(x);
    lemma_put_in_free(n, s, true, x);
}

/// Whether an expression stands among names: it mentions no others, and binds none of
/// them.
pub open spec fn among(n: Node, names: spec_fn(Name) -> bool) -> bool {
    &&& !n.uses("_"@)
    &&& forall|x: Name| #[trigger] n.free(x) ==> names(x)
    &&& forall|y: Name| #[trigger] crate::meaning::binds_in(n, y) && y != "_"@ ==> !names(y)
}

/// Whether what variables stand for is told among names.
pub open spec fn told_among(s: Subst, names: spec_fn(Name) -> bool) -> bool {
    &&& forall|y: Name| (#[trigger] crate::assoc::found(s, y)) is Some ==> names(y)
    &&& forall|x: Name| #[trigger] in_content(s, x) ==> names(x)
}

/// Names with those of a pattern.
pub open spec fn more_names(
    names: spec_fn(Name) -> bool,
    pattern: Seq<Name>,
) -> spec_fn(Name) -> bool {
    |x: Name| names(x) || pattern.contains(x)
}

/// What is written out among names has the value of what it was written out from, and
/// mentions none but these names.
pub proof fn lemma_written(
    n: Node,
    s: Subst,
    env: Env,
    base: Env,
    m: Model,
    names: spec_fn(Name) -> bool,
)
    requires
        crate::meaning::takes_fields(m),
        stands_for(s, env, base, m),
        told_among(s, names),
        among(n, names),
    ensures
        crate::substitution::substituted(n, s) matches Some(e) ==> crate::meaning::eval(
            e,
            base,
            m,
        ) == crate::meaning::eval(n, env, m) && forall|x: Name| #[trigger] e.free(x) ==> names(x),
{
    assert(clear_of(n, s));
    law_writing_out_keeps_values(n, s, env, base, m);
    if let Some(e) = crate::substitution::substituted(n, s) {
        assert forall|x: Name| #[trigger] e.free(x) implies names(x) by {
            lemma_substituted_free(n, s, x);
        }
    }
}

/// Whether a model takes the world's projections for the first part of a pair and the
/// rest.
pub open spec fn projects(m: Model, world: Option<crate::program::WorldFunctions>) -> bool {
    world matches Some(f) ==> {
        &&& forall|ts: Seq<crate::types::Ty>, v: Val|
            (#[trigger] (m.call)(f.pfst, ts, seq![v])) == crate::meaning::first(v)
        &&& forall|ts: Seq<crate::types::Ty>, v: Val|
            (#[trigger] (m.call)(f.psnd, ts, seq![v])) == crate::meaning::rest(v)
    }
}

/// A call with one argument.
proof fn lemma_one_argument(f: crate::types::FunctionID, a: Node, env: Env, m: Model, x: Name)
    ensures
        ({
            let call = Node::Call { function: f, type_args: Seq::empty(), args: seq![a] };
            &&& crate::meaning::eval(call, env, m) == (m.call)(
                f,
                Seq::empty(),
                seq![crate::meaning::eval(a, env, m)],
            )
            &&& call.free(x) ==> a.free(x)
        }),
{
    let call = Node::Call { function: f, type_args: Seq::empty(), args: seq![a] };
    assert(call.kids() == seq![a]);
    assert(crate::meaning::values(call, env, m) =~= seq![crate::meaning::eval(a, env, m)]);
    if call.free(x) {
        let i = choose|i: int|
            0 <= i < call.kids().len() && (#[trigger] call.kids()[i]).free(x) && !call.binds(i, x);
        assert(call.kids()[i] == a);
    }
}

/// What the rest of a value is, by the world's projection.
proof fn lemma_applied(
    f: crate::program::WorldFunctions,
    v: Node,
    k: nat,
    env: Env,
    m: Model,
    x: Name,
)
    requires
        projects(m, Some(f)),
    ensures
        crate::meaning::eval(crate::obligations::applied(f.psnd, v, k), env, m)
            == crate::meaning::behind(crate::meaning::eval(v, env, m), k),
        crate::obligations::applied(f.psnd, v, k).free(x) ==> v.free(x),
    decreases k,
{
    if k > 0 {
        lemma_applied(f, v, (k - 1) as nat, env, m, x);
        lemma_one_argument(
            f.psnd,
            crate::obligations::applied(f.psnd, v, (k - 1) as nat),
            env,
            m,
            x,
        );
    }
}

/// What stands for a name of a tuple has the part that the name takes.
proof fn lemma_part_of(
    world: Option<crate::program::WorldFunctions>,
    pattern: Seq<Name>,
    v: Node,
    i: int,
    env: Env,
    base: Env,
    m: Model,
)
    requires
        projects(m, world),
        0 <= i < pattern.len(),
        pattern.len() > 1,
        pattern[i] != "_"@,
        crate::meaning::bound(env, pattern, crate::meaning::eval(v, base, m))(pattern[i])
            == crate::meaning::part(crate::meaning::eval(v, base, m), i, pattern.len()),
    ensures
        crate::meaning::eval(crate::obligations::part_of(world, pattern, v, i), base, m)
            == crate::meaning::bound(env, pattern, crate::meaning::eval(v, base, m))(pattern[i]),
{
    let value = crate::meaning::eval(v, base, m);
    match world {
        Some(f) => {
            lemma_applied(f, v, i as nat, base, m, pattern[i]);
            let rest = crate::obligations::applied(f.psnd, v, i as nat);
            lemma_one_argument(f.pfst, rest, base, m, pattern[i]);
            assert(crate::obligations::applied(f.pfst, rest, 0) == rest);
            assert(crate::obligations::applied(f.pfst, rest, 1) == (Node::Call {
                function: f.pfst,
                type_args: Seq::empty(),
                args: seq![rest],
            }));
        },
        None => {
            crate::meaning::lemma_bound(env, base, pattern, value, pattern[i]);
            assert(pattern.contains(pattern[i]));
            let inner = Node::Var(pattern[i]);
            assert(crate::meaning::eval(
                inner,
                crate::meaning::bound(base, pattern, value),
                m,
            ) == crate::meaning::bound(base, pattern, value)(pattern[i]));
        },
    }
}

/// What stands for a name of a tuple mentions what the tuple mentions.
proof fn lemma_part_of_free(
    world: Option<crate::program::WorldFunctions>,
    pattern: Seq<Name>,
    v: Node,
    i: int,
    env: Env,
    m: Model,
    x: Name,
)
    requires
        projects(m, world),
        0 <= i < pattern.len(),
        crate::obligations::part_of(world, pattern, v, i).free(x),
    ensures
        v.free(x),
{
    match world {
        Some(f) => {
            lemma_applied(f, v, i as nat, env, m, x);
            let rest = crate::obligations::applied(f.psnd, v, i as nat);
            lemma_one_argument(f.pfst, rest, env, m, x);
            assert(crate::obligations::applied(f.pfst, rest, 0) == rest);
            assert(crate::obligations::applied(f.pfst, rest, 1) == (Node::Call {
                function: f.pfst,
                type_args: Seq::empty(),
                args: seq![rest],
            }));
        },
        None => {
            let e = crate::obligations::part_of(world, pattern, v, i);
            let j = choose|j: int|
                0 <= j < e.kids().len() && (#[trigger] e.kids()[j]).free(x) && !e.binds(j, x);
            assert(e.kids() =~= seq![v, Node::Var(pattern[i])]);
            if j == 1 {
                assert(pattern.contains(pattern[i]));
                let inner = Node::Var(pattern[i]);
                assert(inner.kids().len() == 0);
                assert(inner.uses_here(x));
            }
        },
    }
}

/// The names of a tuple take its parts, the later ones where a name stands twice.
proof fn lemma_with_parts(
    s: Subst,
    world: Option<crate::program::WorldFunctions>,
    pattern: Seq<Name>,
    value: Option<Node>,
    v: Val,
    env: Env,
    k: nat,
    x: Name,
)
    requires
        k <= pattern.len(),
    ensures
        ({
            let t = crate::obligations::with_parts(s, world, pattern, value, k);
            let out = crate::meaning::set_parts(env, pattern, v, k);
            ||| crate::assoc::found(t, x) == crate::assoc::found(s, x) && out(x) == env(x) && (
            forall|j: int| 0 <= j < k ==> #[trigger] pattern[j] != x)
            ||| exists|j: int|
                0 <= j < k && #[trigger] pattern[j] == x && out(x) == crate::meaning::part(
                    v,
                    j,
                    pattern.len(),
                ) && crate::assoc::found(t, x) == Some(
                    match value {
                        Some(e) => Some(crate::obligations::part_of(world, pattern, e, j)),
                        None => None,
                    },
                )
        }),
    decreases k,
{
    if k > 0 {
        lemma_with_parts(s, world, pattern, value, v, env, (k - 1) as nat, x);
        lemma_found_put(
            crate::obligations::with_parts(s, world, pattern, value, (k - 1) as nat),
            pattern[k - 1],
            match value {
                Some(e) => Some(crate::obligations::part_of(world, pattern, e, k - 1)),
                None => None,
            },
            x,
        );
    }
}

/// Behind a binding the variables stand for the values that they then have.
pub proof fn lemma_bound_values(
    whole: Node,
    sharing: bool,
    world: Option<crate::program::WorldFunctions>,
    pattern: Seq<Name>,
    value: Node,
    s: Subst,
    env: Env,
    base: Env,
    m: Model,
    names: spec_fn(Name) -> bool,
)
    requires
        crate::meaning::takes_fields(m),
        projects(m, world),
        stands_for(s, env, base, m),
        told_among(s, names),
        among(value, names),
    ensures
        ({
            let t = crate::obligations::bound_values(whole, sharing, world, pattern, value, s).0;
            &&& stands_for(
                t,
                crate::meaning::bound(env, pattern, crate::meaning::eval(value, env, m)),
                base,
                m,
            )
            &&& told_among(t, more_names(names, pattern))
            &&& forall|x: Name|
                !pattern.contains(x) ==> #[trigger] crate::assoc::found(t, x)
                    == crate::assoc::found(s, x)
        }),
{
    lemma_written(value, s, env, base, m, names);
    let t = crate::obligations::bound_values(whole, sharing, world, pattern, value, s).0;
    let v = crate::meaning::eval(value, env, m);
    let out = crate::meaning::bound(env, pattern, v);
    let more = more_names(names, pattern);
    let e = crate::obligations::short_value(
        value,
        s,
        pattern.len() == 1 && sharing && crate::substitution::stands_often(whole, pattern[0]),
    );
    assert forall|x: Name|
        x != "_"@ ==> match #[trigger] crate::assoc::found(t, x) {
            Some(Some(c)) => out(x) == crate::meaning::eval(c, base, m),
            Some(None) => true,
            None => out(x) == base(x),
        } by {
        assert(x != "_"@ ==> match crate::assoc::found(s, x) {
            Some(Some(c)) => env(x) == crate::meaning::eval(c, base, m),
            Some(None) => true,
            None => env(x) == base(x),
        });
        if pattern.len() == 1 {
            lemma_found_put(s, pattern[0], e, x);
        } else {
            lemma_with_parts(s, world, pattern, e, v, env, pattern.len(), x);
            if e is Some && x != "_"@ && !(forall|j: int|
                0 <= j < pattern.len() ==> #[trigger] pattern[j] != x) {
                let j = choose|j: int|
                    0 <= j < pattern.len() && #[trigger] pattern[j] == x && out(x)
                        == crate::meaning::part(v, j, pattern.len()) && crate::assoc::found(t, x)
                        == Some(Some(crate::obligations::part_of(world, pattern, e->0, j)));
                lemma_part_of(world, pattern, e->0, j, env, base, m);
            }
        }
    }
    assert forall|x: Name| !pattern.contains(x) implies #[trigger] crate::assoc::found(t, x)
        == crate::assoc::found(s, x) by {
        if pattern.len() == 1 {
            lemma_found_put(s, pattern[0], e, x);
            assert(pattern.contains(pattern[0]));
        } else {
            lemma_with_parts(s, world, pattern, e, v, env, pattern.len(), x);
        }
    }
    assert forall|y: Name| (#[trigger] crate::assoc::found(t, y)) is Some implies more(y) by {
        if !pattern.contains(y) {
            assert(crate::assoc::found(s, y) is Some);
        }
    }
    assert forall|x: Name| #[trigger] in_content(t, x) implies more(x) by {
        let y = choose|y: Name|
            match #[trigger] crate::assoc::found(t, y) {
                Some(Some(c)) => c.free(x),
                _ => false,
            };
        if pattern.len() == 1 {
            lemma_found_put(s, pattern[0], e, y);
        } else {
            lemma_with_parts(s, world, pattern, e, v, env, pattern.len(), y);
        }
        if crate::assoc::found(t, y) == crate::assoc::found(s, y) {
            assert(in_content(s, x));
        } else if pattern.len() > 1 {
            let j = choose|j: int|
                0 <= j < pattern.len() && #[trigger] pattern[j] == y && crate::assoc::found(t, y)
                    == Some(
                    match e {
                        Some(c) => Some(crate::obligations::part_of(world, pattern, c, j)),
                        None => None,
                    },
                );
            lemma_part_of_free(world, pattern, e->0, j, env, m, x);
        }
    }
}

} // verus!
