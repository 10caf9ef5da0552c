//! What expressions mean: their values, given the values of their variables and a model
//! of the functions and structures that they mention.
//!
//! The meaning is the measure that the laws of the passes are held against. It knows
//! nothing of the passes.

use crate::ir::{BinOp, Lit, Node, UnOp};
use crate::program::{Func, Prog};
use crate::types::{FunctionID, Name, StructID, Ty};
use vstd::prelude::*;

verus! {

/// A value.
#[verifier::ext_equal]
pub enum Val {
    Bool(bool),
    Num(nat),
    Nothing,
    Just(Box<Val>),
    Tuple(Seq<Val>),
    Other(int),
}

/// The values of variables.
pub type Env = spec_fn(Name) -> Val;

/// What the functions and structures of a program and the remaining operations mean.
pub struct Model {
    /// What a function returns.
    pub call: spec_fn(FunctionID, Seq<Ty>, Seq<Val>) -> Val,
    /// What a field of a structure holds.
    pub field: spec_fn(StructID, usize, Val) -> Val,
    /// A structure with another value in a field.
    pub update: spec_fn(StructID, usize, Val, Val) -> Val,
    /// A structure that is built.
    pub pack: spec_fn(StructID, Seq<Ty>, Option<usize>, Seq<Val>) -> Val,
    /// The variant that a value is of, and what it holds.
    pub variant: spec_fn(Val) -> (usize, Seq<Val>),
    /// Whether an operation on two numbers leaves the range of their type.
    pub overflows: spec_fn(BinOp, Val, Val) -> bool,
    /// Every other operation: of its parts, each given the values of the names that are
    /// bound around it.
    pub other: spec_fn(Node, spec_fn(int, Seq<Val>) -> Val) -> Val,
}

/// Whether a model takes fields for what they are: a structure that is built has what it
/// was given, and one that is updated has the new value, and the others as before.
pub open spec fn takes_fields(m: Model) -> bool {
    &&& forall|s: StructID, i: usize, j: usize, b: Val, v: Val| #[trigger]
        (m.field)(s, i, (m.update)(s, j, b, v)) == if i == j {
            v
        } else {
            (m.field)(s, i, b)
        }
    &&& forall|s: StructID, i: usize, ts: Seq<Ty>, vs: Seq<Val>|
        i < vs.len() ==> #[trigger] (m.field)(s, i, (m.pack)(s, ts, None::<usize>, vs))
            == vs[i as int]
}

/// The first part of a pair; a longer tuple is a pair of its first part and the rest.
pub open spec fn first(v: Val) -> Val {
    match v {
        Val::Tuple(vs) => vs[0],
        _ => v,
    }
}

/// The rest of a tuple behind its first part.
pub open spec fn rest(v: Val) -> Val {
    match v {
        Val::Tuple(vs) => if vs.len() == 2 {
            vs[1]
        } else {
            Val::Tuple(vs.subrange(1, vs.len() as int))
        },
        _ => v,
    }
}

/// A value without its first `k` parts.
pub open spec fn behind(v: Val, k: nat) -> Val
    decreases k,
{
    if k == 0 {
        v
    } else {
        rest(behind(v, (k - 1) as nat))
    }
}

/// The `i`th of `n` parts of a value.
pub open spec fn part(v: Val, i: int, n: nat) -> Val {
    if i < n - 1 {
        first(behind(v, i as nat))
    } else {
        behind(v, i as nat)
    }
}

/// The values of variables with one more.
pub open spec fn set(env: Env, x: Name, v: Val) -> Env {
    |y: Name|
        if y == x {
            v
        } else {
            env(y)
        }
}

/// The values of variables with those of the first `k` parts of a value.
pub open spec fn set_parts(env: Env, xs: Seq<Name>, v: Val, k: nat) -> Env
    decreases k,
{
    if k == 0 {
        env
    } else {
        set(set_parts(env, xs, v, (k - 1) as nat), xs[k - 1], part(v, k - 1, xs.len()))
    }
}

/// The values of variables behind a binding.
pub open spec fn bound(env: Env, pattern: Seq<Name>, v: Val) -> Env {
    if pattern.len() == 1 {
        set(env, pattern[0], v)
    } else {
        set_parts(env, pattern, v, pattern.len())
    }
}

/// The values of variables with those of the first `k` names of a list.
pub open spec fn set_all(env: Env, xs: Seq<Name>, vs: Seq<Val>, k: nat) -> Env
    decreases k,
{
    if k == 0 {
        env
    } else {
        set(set_all(env, xs, vs, (k - 1) as nat), xs[k - 1], vs[k - 1])
    }
}

/// The first case for a variant.
pub open spec fn case_for(cases: Seq<(usize, Seq<Name>, Node)>, tag: usize) -> Option<int>
    decreases cases.len(),
{
    if cases.len() == 0 {
        None
    } else {
        match case_for(cases.drop_last(), tag) {
            Some(i) => Some(i),
            None => if cases.last().0 == tag {
                Some(cases.len() - 1)
            } else {
                None
            },
        }
    }
}

/// A case for a variant is one of the cases, and depends on the variants alone.
pub proof fn lemma_case_for(
    a: Seq<(usize, Seq<Name>, Node)>,
    b: Seq<(usize, Seq<Name>, Node)>,
    tag: usize,
)
    requires
        a.len() == b.len(),
        forall|i: int| 0 <= i < a.len() ==> (#[trigger] a[i]).0 == b[i].0,
    ensures
        case_for(a, tag) == case_for(b, tag),
        case_for(a, tag) matches Some(i) ==> 0 <= i < a.len() && a[i].0 == tag,
    decreases a.len(),
{
    if a.len() > 0 {
        assert forall|i: int| 0 <= i < a.len() - 1 implies (#[trigger] a.drop_last()[i]).0
            == b.drop_last()[i].0 by {
            assert(a[i].0 == b[i].0);
        }
        lemma_case_for(a.drop_last(), b.drop_last(), tag);
        assert(a[a.len() - 1].0 == b[b.len() - 1].0);
    }
}

/// The names that an operation, other than a binding or a match, binds around its `i`th
/// part.
pub open spec fn names_around(n: Node, i: int) -> Seq<Name> {
    match n {
        Node::MutableBorrow { reconstruct_param, .. } => if i == 1 {
            seq![reconstruct_param]
        } else {
            Seq::empty()
        },
        Node::Quantifier { binding, .. } => seq![binding],
        _ => Seq::empty(),
    }
}

/// An operation without its parts.
pub open spec fn shape(n: Node) -> Node {
    n.with_kids(Seq::new(n.kids().len(), |i: int| Node::OptionNone))
}

/// Whether a value is true.
pub open spec fn truth(v: Val) -> bool {
    v == Val::Bool(true)
}

/// The number that a value is.
pub open spec fn number(v: Val) -> int {
    match v {
        Val::Num(n) => n as int,
        _ => -1,
    }
}

/// What the operations on truth values and the comparisons of numbers give.
pub open spec fn compared(op: BinOp, a: Val, b: Val) -> Option<bool> {
    match op {
        BinOp::And => Some(truth(a) && truth(b)),
        BinOp::Or => Some(truth(a) || truth(b)),
        BinOp::Eq => Some(a == b),
        BinOp::Neq => Some(a != b),
        BinOp::Lt => Some(number(a) < number(b)),
        BinOp::Le => Some(number(a) <= number(b)),
        BinOp::Gt => Some(number(a) > number(b)),
        BinOp::Ge => Some(number(a) >= number(b)),
        _ => None,
    }
}

/// The value of an expression.
pub open spec fn eval(n: Node, env: Env, m: Model) -> Val
    decreases n, 1nat,
{
    match n {
        Node::Var(x) => if x == "_"@ {
            Val::Nothing
        } else {
            env(x)
        },
        Node::Const(Lit::Bool(b)) => Val::Bool(b),
        Node::Const(Lit::UInt { value, .. }) => Val::Num(value),
        Node::OptionNone => Val::Nothing,
        Node::OptionSome(e) => Val::Just(Box::new(eval(*e, env, m))),
        Node::ToProp(e) => eval(*e, env, m),
        Node::ToBool(e) => eval(*e, env, m),
        Node::UnOp { op: UnOp::Not, operand } => Val::Bool(!truth(eval(*operand, env, m))),
        Node::BinOp { op, lhs, rhs } => match compared(
            op,
            eval(*lhs, env, m),
            eval(*rhs, env, m),
        ) {
            Some(b) => Val::Bool(b),
            None => (m.other)(shape(n), parts(n, env, m)),
        },
        Node::ArithOverflowCheck { op, lhs, rhs } => Val::Bool(
            (m.overflows)(op, eval(*lhs, env, m), eval(*rhs, env, m)),
        ),
        Node::Let { pattern, value, body } => eval(
            *body,
            bound(env, pattern, eval(*value, env, m)),
            m,
        ),
        Node::If { cond, then_branch, else_branch } => if truth(eval(*cond, env, m)) {
            eval(*then_branch, env, m)
        } else {
            eval(*else_branch, env, m)
        },
        Node::MatchOption { scrutinee, binding, some_branch, none_branch } => match eval(
            *scrutinee,
            env,
            m,
        ) {
            Val::Just(v) => eval(*some_branch, set(env, binding, *v), m),
            _ => eval(*none_branch, env, m),
        },
        Node::Match { scrutinee, cases } => {
            let (tag, vs) = (m.variant)(eval(*scrutinee, env, m));
            match case_for(cases, tag) {
                Some(i) => eval_case(n, i, vs, env, m),
                None => Val::Nothing,
            }
        },
        Node::Tuple(_) => Val::Tuple(values(n, env, m)),
        Node::Call { function, type_args, .. } => (m.call)(
            function,
            type_args,
            values(n, env, m),
        ),
        Node::Pack { struct_id, type_args, variant_index, .. } => (m.pack)(
            struct_id,
            type_args,
            variant_index,
            values(n, env, m),
        ),
        Node::Field { struct_id, field_index, base } => (m.field)(
            struct_id,
            field_index,
            eval(*base, env, m),
        ),
        Node::UpdateField { base, struct_id, field_index, value } => (m.update)(
            struct_id,
            field_index,
            eval(*base, env, m),
            eval(*value, env, m),
        ),
        _ => (m.other)(shape(n), parts(n, env, m)),
    }
}

/// The value of a case of a match on what the variant holds.
pub open spec fn eval_case(n: Node, i: int, vs: Seq<Val>, env: Env, m: Model) -> Val
    decreases n, 0nat,
{
    match n {
        Node::Match { cases, .. } => if 0 <= i < cases.len() {
            eval(cases[i].2, set_all(env, cases[i].1, vs, cases[i].1.len()), m)
        } else {
            Val::Nothing
        },
        _ => Val::Nothing,
    }
}

/// The values of the direct subexpressions.
pub open spec fn values(n: Node, env: Env, m: Model) -> Seq<Val>
    decreases n, 0nat,
{
    proof {
        n.lemma_kids_decrease();
    }
    Seq::new(
        n.kids().len(),
        |i: int|
            if 0 <= i < n.kids().len() {
                eval(n.kids()[i], env, m)
            } else {
                Val::Nothing
            },
    )
}

/// The values of the direct subexpressions, each by the values of the names that are
/// bound around it.
pub open spec fn parts(n: Node, env: Env, m: Model) -> spec_fn(int, Seq<Val>) -> Val
    decreases n, 0nat,
{
    proof {
        n.lemma_kids_decrease();
    }
    |i: int, vs: Seq<Val>|
        if 0 <= i < n.kids().len() {
            eval(n.kids()[i], set_all(env, names_around(n, i), vs, names_around(n, i).len()), m)
        } else {
            Val::Nothing
        }
}

/// The values of several expressions.
pub open spec fn eval_all(es: Seq<Node>, env: Env, m: Model) -> Seq<Val> {
    Seq::new(es.len(), |i: int| eval(es[i], env, m))
}

/// A tuple has the parts that it was made of.
pub proof fn lemma_part_of_tuple(vs: Seq<Val>, i: int)
    requires
        0 <= i < vs.len(),
        vs.len() > 1,
    ensures
        part(Val::Tuple(vs), i, vs.len()) == vs[i],
{
    lemma_behind_tuple(vs, i as nat);
}

/// A tuple without its first parts.
proof fn lemma_behind_tuple(vs: Seq<Val>, k: nat)
    requires
        k < vs.len(),
        vs.len() > 1,
    ensures
        behind(Val::Tuple(vs), k) == if k == vs.len() - 1 {
            vs[k as int]
        } else {
            Val::Tuple(vs.subrange(k as int, vs.len() as int))
        },
    decreases k,
{
    if k == 0 {
        assert(vs.subrange(0, vs.len() as int) =~= vs);
    } else {
        lemma_behind_tuple(vs, (k - 1) as nat);
        let t = vs.subrange(k - 1, vs.len() as int);
        assert(t.subrange(1, t.len() as int) =~= vs.subrange(k as int, vs.len() as int));
        assert(t[1] == vs[k as int]);
    }
}

/// Whether a name is bound somewhere in an expression.
pub open spec fn binds_in(n: Node, y: Name) -> bool {
    n.any(|k: Node| exists|i: int| k.binds(i, y))
}

/// A name that is bound in a direct subexpression, or around one, is bound in the
/// expression.
pub proof fn lemma_binds_in(n: Node, i: int, y: Name)
    ensures
        0 <= i < n.kids().len() && binds_in(n.kids()[i], y) ==> binds_in(n, y),
        n.binds(i, y) ==> binds_in(n, y),
{
    let t = |k: Node| exists|i: int| k.binds(i, y);
    if 0 <= i < n.kids().len() && binds_in(n.kids()[i], y) {
        assert(n.kids()[i].any(t));
        assert(n.any_kid(t));
    }
    if n.binds(i, y) {
        assert(t(n));
    }
}

/// Whether two assignments give the free variables of an expression the same values.
pub open spec fn agree(n: Node, a: Env, b: Env) -> bool {
    forall|x: Name| #[trigger] n.free(x) && x != "_"@ ==> a(x) == b(x)
}

/// Setting names of a list sets those that are in it.
pub proof fn lemma_set_all(a: Env, b: Env, xs: Seq<Name>, vs: Seq<Val>, k: nat, x: Name)
    requires
        k <= xs.len(),
    ensures
        a(x) == b(x) ==> set_all(a, xs, vs, k)(x) == set_all(b, xs, vs, k)(x),
        xs.subrange(0, k as int).contains(x) ==> set_all(a, xs, vs, k)(x) == set_all(
            b,
            xs,
            vs,
            k,
        )(x),
        !xs.subrange(0, k as int).contains(x) ==> set_all(a, xs, vs, k)(x) == a(x),
    decreases k,
{
    if k > 0 {
        lemma_set_all(a, b, xs, vs, (k - 1) as nat, x);
        let all = xs.subrange(0, k as int);
        let before = xs.subrange(0, k - 1);
        assert(all.contains(x) <==> before.contains(x) || xs[k - 1] == x) by {
            if all.contains(x) {
                let j = choose|j: int| 0 <= j < all.len() && all[j] == x;
                if j < k - 1 {
                    assert(before[j] == x);
                }
            }
            if before.contains(x) {
                let j = choose|j: int| 0 <= j < before.len() && before[j] == x;
                assert(all[j] == x);
            }
            assert(all[k - 1] == xs[k - 1]);
        }
    }
}

/// Binding the parts of a value sets the names of the pattern.
proof fn lemma_set_parts(a: Env, b: Env, xs: Seq<Name>, v: Val, k: nat, x: Name)
    requires
        k <= xs.len(),
    ensures
        a(x) == b(x) ==> set_parts(a, xs, v, k)(x) == set_parts(b, xs, v, k)(x),
        xs.subrange(0, k as int).contains(x) ==> set_parts(a, xs, v, k)(x) == set_parts(
            b,
            xs,
            v,
            k,
        )(x),
        !xs.subrange(0, k as int).contains(x) ==> set_parts(a, xs, v, k)(x) == a(x),
    decreases k,
{
    if k > 0 {
        lemma_set_parts(a, b, xs, v, (k - 1) as nat, x);
        let all = xs.subrange(0, k as int);
        let before = xs.subrange(0, k - 1);
        assert(all.contains(x) <==> before.contains(x) || xs[k - 1] == x) by {
            if all.contains(x) {
                let j = choose|j: int| 0 <= j < all.len() && all[j] == x;
                if j < k - 1 {
                    assert(before[j] == x);
                }
            }
            if before.contains(x) {
                let j = choose|j: int| 0 <= j < before.len() && before[j] == x;
                assert(all[j] == x);
            }
            assert(all[k - 1] == xs[k - 1]);
        }
    }
}

/// A binding sets the names of its pattern, and leaves the others.
pub proof fn lemma_bound(a: Env, b: Env, pattern: Seq<Name>, v: Val, x: Name)
    ensures
        a(x) == b(x) || pattern.contains(x) ==> bound(a, pattern, v)(x) == bound(
            b,
            pattern,
            v,
        )(x),
        !pattern.contains(x) ==> bound(a, pattern, v)(x) == a(x),
{
    lemma_set_parts(a, b, pattern, v, pattern.len(), x);
    assert(pattern.subrange(0, pattern.len() as int) =~= pattern);
    if pattern.len() == 1 {
        assert(pattern.contains(x) <==> pattern[0] == x);
    }
}

/// Names that are bound around a part are bound there.
pub proof fn lemma_names_around(n: Node, i: int, x: Name)
    requires
        !(n is Let),
        !(n is Match),
        !(n is MatchOption),
        0 <= i < n.kids().len(),
    ensures
        n.binds(i, x) <==> names_around(n, i).contains(x),
{
    match n {
        Node::Quantifier { binding, .. } => {
            assert(seq![binding][0] == binding);
        },
        Node::MutableBorrow { reconstruct_param, .. } => {
            assert(seq![reconstruct_param][0] == reconstruct_param);
        },
        _ => {},
    }
}

/// The value of an expression depends on the values of its free variables alone.
pub proof fn lemma_agree(n: Node, a: Env, b: Env, m: Model)
    requires
        agree(n, a, b),
    ensures
        eval(n, a, m) == eval(n, b, m),
        values(n, a, m) == values(n, b, m) || n is Let || n is Match || n is MatchOption || n
            is MutableBorrow || n is Quantifier,
    decreases n,
{
    n.lemma_kids_decrease();
    match n {
        Node::Var(x) => {
            assert(n.free(x));
        },
        Node::Let { pattern, value, body } => {
            assert(n.kids() =~= seq![*value, *body]);
            assert(agree(*value, a, b)) by {
                assert forall|x: Name| #[trigger] value.free(x) && x != "_"@ implies a(x)
                    == b(x) by {
                    assert(n.kids()[0].free(x));
                    assert(n.free(x));
                }
            }
            lemma_agree(*value, a, b, m);
            let v = eval(*value, a, m);
            assert(agree(*body, bound(a, pattern, v), bound(b, pattern, v))) by {
                assert forall|x: Name| #[trigger] body.free(x) && x != "_"@ implies bound(
                    a,
                    pattern,
                    v,
                )(x) == bound(b, pattern, v)(x) by {
                    lemma_bound(a, b, pattern, v, x);
                    if !pattern.contains(x) {
                        assert(n.kids()[1].free(x));
                        assert(n.free(x));
                    }
                }
            }
            lemma_agree(*body, bound(a, pattern, v), bound(b, pattern, v), m);
        },
        Node::MatchOption { scrutinee, binding, some_branch, none_branch } => {
            assert(n.kids() =~= seq![*scrutinee, *some_branch, *none_branch]);
            assert(agree(*scrutinee, a, b) && agree(*none_branch, a, b)) by {
                assert forall|x: Name| #[trigger] scrutinee.free(x) && x != "_"@ implies a(x)
                    == b(x) by {
                    assert(n.kids()[0].free(x));
                    assert(n.free(x));
                }
                assert forall|x: Name| #[trigger] none_branch.free(x) && x != "_"@ implies a(x)
                    == b(x) by {
                    assert(n.kids()[2].free(x));
                    assert(n.free(x));
                }
            }
            lemma_agree(*scrutinee, a, b, m);
            lemma_agree(*none_branch, a, b, m);
            if let Val::Just(v) = eval(*scrutinee, a, m) {
                assert(agree(*some_branch, set(a, binding, *v), set(b, binding, *v))) by {
                    assert forall|x: Name| #[trigger] some_branch.free(x) && x != "_"@ implies set(
                        a,
                        binding,
                        *v,
                    )(x) == set(b, binding, *v)(x) by {
                        assert(n.kids()[1].free(x));
                        if x != binding {
                            assert(n.free(x));
                        }
                    }
                }
                lemma_agree(*some_branch, set(a, binding, *v), set(b, binding, *v), m);
            }
        },
        Node::Match { scrutinee, cases } => {
            assert(agree(*scrutinee, a, b)) by {
                assert forall|x: Name| #[trigger] scrutinee.free(x) && x != "_"@ implies a(x)
                    == b(x) by {
                    assert(n.kids()[0].free(x));
                    assert(n.free(x));
                }
            }
            lemma_agree(*scrutinee, a, b, m);
            let (tag, vs) = (m.variant)(eval(*scrutinee, a, m));
            lemma_case_for(cases, cases, tag);
            if let Some(i) = case_for(cases, tag) {
                let xs = cases[i].1;
                let (c, d) = (set_all(a, xs, vs, xs.len()), set_all(b, xs, vs, xs.len()));
                let k = n.kids()[i + 1];
                assert(k == cases[i].2);
                assert(xs.subrange(0, xs.len() as int) =~= xs);
                assert(agree(k, c, d)) by {
                    assert forall|x: Name| #[trigger] k.free(x) && x != "_"@ implies c(x)
                        == d(x) by {
                        lemma_set_all(a, b, xs, vs, xs.len(), x);
                        if !xs.contains(x) {
                            assert(n.kids()[i + 1].free(x) && !n.binds(i + 1, x));
                            assert(n.free(x));
                        }
                    }
                }
                lemma_agree(k, c, d, m);
                assert(eval(n, a, m) == eval_case(n, i, vs, a, m));
                assert(eval(n, b, m) == eval_case(n, i, vs, b, m));
            }
        },
        _ => {
            assert forall|i: int, vs: Seq<Val>| 0 <= i < n.kids().len() implies eval(
                n.kids()[i],
                #[trigger] set_all(a, names_around(n, i), vs, names_around(n, i).len()),
                m,
            ) == eval(
                n.kids()[i],
                set_all(b, names_around(n, i), vs, names_around(n, i).len()),
                m,
            ) by {
                let xs = names_around(n, i);
                let (c, d) = (set_all(a, xs, vs, xs.len()), set_all(b, xs, vs, xs.len()));
                assert(xs.subrange(0, xs.len() as int) =~= xs);
                assert(agree(n.kids()[i], c, d)) by {
                    assert forall|x: Name| #[trigger] n.kids()[i].free(x) && x != "_"@ implies c(x)
                        == d(x) by {
                        lemma_set_all(a, b, xs, vs, xs.len(), x);
                        lemma_names_around(n, i, x);
                        if !xs.contains(x) {
                            assert(n.free(x));
                        }
                    }
                }
                lemma_agree(n.kids()[i], c, d, m);
            }
            assert(parts(n, a, m) =~= parts(n, b, m));
            if !(n is MutableBorrow || n is Quantifier) {
                assert forall|i: int| 0 <= i < n.kids().len() implies eval(
                    #[trigger] n.kids()[i],
                    a,
                    m,
                ) == eval(n.kids()[i], b, m) by {
                    let none = Seq::<Val>::empty();
                    assert(names_around(n, i) =~= Seq::empty());
                    assert(set_all(a, names_around(n, i), none, 0) == a);
                    assert(set_all(b, names_around(n, i), none, 0) == b);
                }
                assert(values(n, a, m) =~= values(n, b, m));
                lemma_by_kids(n, a, n, b, m);
            }
        },
    }
}

/// Two operations that differ in their parts alone have the same value where their parts
/// have.
pub proof fn lemma_by_kids(n: Node, a: Env, k: Node, b: Env, m: Model)
    requires
        shape(n) == shape(k),
        n.kids().len() == k.kids().len(),
        values(n, a, m) == values(k, b, m),
        parts(n, a, m) == parts(k, b, m),
        !(n is Let) && !(n is Match) && !(n is MatchOption) && !(n is Var),
    ensures
        eval(n, a, m) == eval(k, b, m),
{
    assert forall|i: int| 0 <= i < n.kids().len() implies eval(#[trigger] n.kids()[i], a, m)
        == eval(k.kids()[i], b, m) by {
        assert(values(n, a, m)[i] == values(k, b, m)[i]);
    }
    assert(shape(n).kids().len() == shape(k).kids().len());
    let (x, y) = (n.kids(), k.kids());
    if x.len() > 0 {
        assert(eval(x[0], a, m) == eval(y[0], b, m));
    }
    if x.len() > 1 {
        assert(eval(x[1], a, m) == eval(y[1], b, m));
    }
    if x.len() > 2 {
        assert(eval(x[2], a, m) == eval(y[2], b, m));
    }
}

/// The names under which a function knows what it is given: those of its parameters, and
/// behind them those of its proof parameters.
pub open spec fn given_names(f: Func) -> Seq<Name> {
    crate::segments::param_vars(f.signature.parameters) + crate::segments::proof_names(
        f.signature.proof_params,
    )
}

/// The values of variables at the beginning of a function.
pub open spec fn given(f: Func, vs: Seq<Val>) -> Env {
    set_all(|x: Name| Val::Nothing, given_names(f), vs, given_names(f).len())
}

/// Whether a model takes a function for its body.
pub open spec fn reads_as(m: Model, id: FunctionID, f: Func) -> bool {
    forall|ts: Seq<Ty>, vs: Seq<Val>| #[trigger]
        (m.call)(id, ts, vs) == eval(f.body, given(f, vs), m)
}

/// Whether a model takes the functions of a program from the `k`th on for their bodies.
pub open spec fn reads_from(m: Model, p: Prog, k: nat) -> bool {
    forall|i: int|
        k <= i < p.functions.len() ==> reads_as(
            m,
            (#[trigger] p.functions[i]).0,
            p.functions[i].1,
        )
}

/// What a name is given, where what is given for each name is what it has in an
/// assignment.
pub proof fn lemma_given(env: Env, xs: Seq<Name>, vs: Seq<Val>, start: Env, k: nat, x: Name)
    requires
        k <= xs.len(),
        vs.len() >= k,
        forall|i: int| 0 <= i < k && #[trigger] xs[i] == x ==> vs[i] == env(x),
        xs.subrange(0, k as int).contains(x),
    ensures
        set_all(start, xs, vs, k)(x) == env(x),
    decreases k,
{
    if k > 0 && xs[k - 1] != x {
        let all = xs.subrange(0, k as int);
        let before = xs.subrange(0, k - 1);
        let j = choose|j: int| 0 <= j < all.len() && all[j] == x;
        assert(before[j] == x);
        lemma_given(env, xs, vs, start, (k - 1) as nat, x);
    }
}

/// What a name of a pattern is given, where each part of a value is what its name has in
/// an assignment.
pub proof fn lemma_given_parts(env: Env, xs: Seq<Name>, v: Val, start: Env, k: nat, x: Name)
    requires
        k <= xs.len(),
        forall|i: int| 0 <= i < k && #[trigger] xs[i] == x ==> part(v, i, xs.len()) == env(x),
        xs.subrange(0, k as int).contains(x),
    ensures
        set_parts(start, xs, v, k)(x) == env(x),
    decreases k,
{
    if k > 0 && xs[k - 1] != x {
        let all = xs.subrange(0, k as int);
        let before = xs.subrange(0, k - 1);
        let j = choose|j: int| 0 <= j < all.len() && all[j] == x;
        assert(before[j] == x);
        lemma_given_parts(env, xs, v, start, (k - 1) as nat, x);
    }
}

/// The values of variables behind a chain of bindings.
pub open spec fn after(bs: Seq<(Seq<Name>, Node)>, env: Env, m: Model) -> Env
    decreases bs.len(),
{
    if bs.len() == 0 {
        env
    } else {
        let e = after(bs.drop_last(), env, m);
        bound(e, bs.last().0, eval(bs.last().1, e, m))
    }
}

/// What stands behind a chain of bindings is evaluated behind them.
pub proof fn lemma_chained(bs: Seq<(Seq<Name>, Node)>, tail: Node, env: Env, m: Model)
    ensures
        eval(crate::shadowing::chained(bs, tail), env, m) == eval(tail, after(bs, env, m), m),
    decreases bs.len(),
{
    if bs.len() > 0 {
        let last = bs.last();
        let inner = Node::Let {
            pattern: last.0,
            value: Box::new(last.1),
            body: Box::new(tail),
        };
        lemma_chained(bs.drop_last(), inner, env, m);
    }
}

/// The value of a match on an option.
pub proof fn lemma_match_option(
    scrutinee: Node,
    binding: Name,
    some_branch: Node,
    none_branch: Node,
    env: Env,
    m: Model,
)
    ensures
        eval(
            Node::MatchOption {
                scrutinee: Box::new(scrutinee),
                binding,
                some_branch: Box::new(some_branch),
                none_branch: Box::new(none_branch),
            },
            env,
            m,
        ) == match eval(scrutinee, env, m) {
            Val::Just(v) => eval(some_branch, set(env, binding, *v), m),
            _ => eval(none_branch, env, m),
        },
{
}

/// The value of a match.
pub proof fn lemma_match(
    scrutinee: Node,
    cases: Seq<(usize, Seq<Name>, Node)>,
    env: Env,
    m: Model,
)
    ensures
        ({
            let (tag, vs) = (m.variant)(eval(scrutinee, env, m));
            let n = Node::Match { scrutinee: Box::new(scrutinee), cases };
            match case_for(cases, tag) {
                Some(i) => 0 <= i < cases.len() && eval(n, env, m) == eval(
                    cases[i].2,
                    set_all(env, cases[i].1, vs, cases[i].1.len()),
                    m,
                ),
                None => eval(n, env, m) == Val::Nothing,
            }
        }),
{
    let (tag, vs) = (m.variant)(eval(scrutinee, env, m));
    let n = Node::Match { scrutinee: Box::new(scrutinee), cases };
    lemma_case_for(cases, cases, tag);
    if let Some(i) = case_for(cases, tag) {
        assert(eval(n, env, m) == eval_case(n, i, vs, env, m));
    }
}

} // verus!
