//! What statements do, and that restructuring early returns keeps it.

use crate::meaning::{Env, Model, Val};
use crate::statements::Code;
use crate::types::Name;
use vstd::prelude::*;

verus! {

/// What comes of a statement: control goes past it, with the values of variables and its
/// own value; it returns a value; or it aborts.
pub enum Outcome {
    Goes(Env, Val),
    Returns(Val),
    Aborts,
}

/// What expressions and loops do. What a loop does depends on what its condition and its
/// body do.
pub struct Machine {
    pub m: Model,
    pub loops: spec_fn(spec_fn(Env) -> Outcome, spec_fn(Env) -> Outcome, Seq<Name>, Env) -> Outcome,
}

/// The unit value.
pub open spec fn unit_value() -> Val {
    Val::Tuple(Seq::empty())
}

/// What a statement does.
pub open spec fn run(c: Code, env: Env, mm: Machine) -> Outcome
    decreases c, 0nat,
{
    match c {
        Code::Return(vs) => {
            let o = if vs.len() == 1 {
                run(vs[0], env, mm)
            } else {
                run_tuple(vs, vs.len(), env, mm)
            };
            match o {
                Outcome::Goes(_, v) => Outcome::Returns(v),
                other => other,
            }
        },
        Code::Abort(_) => Outcome::Aborts,
        Code::Block { children } => run_all(children, children.len(), env, mm),
        Code::If { cond, then_branch, else_branch } => match run(*cond, env, mm) {
            Outcome::Goes(e, v) => if crate::meaning::truth(v) {
                run(*then_branch, e, mm)
            } else {
                run(*else_branch, e, mm)
            },
            other => other,
        },
        Code::Let { pattern, value } => match run(*value, env, mm) {
            Outcome::Goes(e, v) => Outcome::Goes(
                crate::meaning::bound(e, pattern, v),
                unit_value(),
            ),
            other => other,
        },
        Code::Match { scrutinee, cases, .. } => match run(*scrutinee, env, mm) {
            Outcome::Goes(e, v) => {
                let (tag, vs) = (mm.m.variant)(v);
                run_case(cases, cases.len(), tag, vs, e, mm)
            },
            other => other,
        },
        Code::While { cond, body, vars, .. } => (mm.loops)(
            runs(*cond, mm),
            runs(*body, mm),
            vars,
            env,
        ),
        Code::Tuple(vs) => run_tuple(vs, vs.len(), env, mm),
        Code::Expr(n) => Outcome::Goes(env, crate::meaning::eval(n, env, mm.m)),
    }
}

/// What a statement does, from everywhere.
pub open spec fn runs(c: Code, mm: Machine) -> spec_fn(Env) -> Outcome
    decreases c, 1nat,
{
    |e: Env| run(c, e, mm)
}

/// What the first `k` statements of a list do, one behind the other.
pub open spec fn run_all(s: Seq<Code>, k: nat, env: Env, mm: Machine) -> Outcome
    decreases s, k,
{
    if k == 0 || k > s.len() {
        Outcome::Goes(env, unit_value())
    } else {
        match run_all(s, (k - 1) as nat, env, mm) {
            Outcome::Goes(e, _) => run(s[k - 1], e, mm),
            other => other,
        }
    }
}

/// What the first `k` parts of a tuple do, one behind the other.
pub open spec fn run_tuple(s: Seq<Code>, k: nat, env: Env, mm: Machine) -> Outcome
    decreases s, k,
{
    if k == 0 || k > s.len() {
        Outcome::Goes(env, unit_value())
    } else {
        match run_tuple(s, (k - 1) as nat, env, mm) {
            Outcome::Goes(e, Val::Tuple(vs)) => match run(s[k - 1], e, mm) {
                Outcome::Goes(e1, v) => Outcome::Goes(e1, Val::Tuple(vs.push(v))),
                other => other,
            },
            other => other,
        }
    }
}

/// What the last of the first `k` cases for a variant does; there is none for another
/// variant, which cannot be gone past.
pub open spec fn run_case(
    s: Seq<(usize, Seq<Name>, Code)>,
    k: nat,
    tag: usize,
    vs: Seq<Val>,
    env: Env,
    mm: Machine,
) -> Outcome
    decreases s, k,
{
    if k == 0 || k > s.len() {
        Outcome::Aborts
    } else if s[k - 1].0 == tag {
        run(
            s[k - 1].2,
            crate::meaning::set_all(env, s[k - 1].1, vs, s[k - 1].1.len()),
            mm,
        )
    } else {
        run_case(s, (k - 1) as nat, tag, vs, env, mm)
    }
}

/// What a function whose body is the statement gives: the value that it returns or ends in,
/// or nothing where it aborts.
pub open spec fn given_back(o: Outcome) -> Option<Val> {
    match o {
        Outcome::Goes(_, v) => Some(v),
        Outcome::Returns(v) => Some(v),
        Outcome::Aborts => None,
    }
}

/// The last statement of a list is run where those before it lead to.
proof fn lemma_run_last(s: Seq<Code>, env: Env, mm: Machine)
    requires
        s.len() > 0,
    ensures
        run(Code::Block { children: s }, env, mm) == match run_all(
            s,
            (s.len() - 1) as nat,
            env,
            mm,
        ) {
            Outcome::Goes(e, _) => run(s[s.len() - 1], e, mm),
            other => other,
        },
{
    assert(run(Code::Block { children: s }, env, mm) == run_all(s, s.len(), env, mm));
    assert(run_all(s, s.len(), env, mm) == match run_all(s, (s.len() - 1) as nat, env, mm) {
        Outcome::Goes(e, _) => run(s[s.len() - 1], e, mm),
        other => other,
    });
}

/// Control does not go past a statement that ends it.
proof fn lemma_terminates(c: Code, env: Env, mm: Machine)
    requires
        crate::statements::terminates(c),
    ensures
        !(run(c, env, mm) is Goes),
    decreases c,
{
    match c {
        Code::Block { children } => {
            let last = (children.len() - 1) as nat;
            lemma_run_last(children, env, mm);
            if let Outcome::Goes(e, v) = run_all(children, last, env, mm) {
                lemma_terminates(children[children.len() - 1], e, mm);
            }
        },
        Code::If { cond, then_branch, else_branch } => {
            if let Outcome::Goes(e, v) = run(*cond, env, mm) {
                lemma_terminates(*then_branch, e, mm);
                lemma_terminates(*else_branch, e, mm);
            }
        },
        Code::Match { scrutinee, cases, .. } => {
            if let Outcome::Goes(e, v) = run(*scrutinee, env, mm) {
                let (tag, vs) = (mm.m.variant)(v);
                lemma_cases_terminate(cases, cases.len(), tag, vs, e, mm);
            }
        },
        _ => {},
    }
}

/// Control does not go past cases that all end it.
proof fn lemma_cases_terminate(
    s: Seq<(usize, Seq<Name>, Code)>,
    k: nat,
    tag: usize,
    vs: Seq<Val>,
    env: Env,
    mm: Machine,
)
    requires
        k <= s.len(),
        crate::statements::all_terminate(s),
    ensures
        !(run_case(s, k, tag, vs, env, mm) is Goes),
    decreases s, k,
{
    if k > 0 {
        if s[k - 1].0 == tag {
            lemma_terminates(
                s[k - 1].2,
                crate::meaning::set_all(env, s[k - 1].1, vs, s[k - 1].1.len()),
                mm,
            );
        } else {
            lemma_cases_terminate(s, (k - 1) as nat, tag, vs, env, mm);
        }
    }
}

/// What the first statements do depends on them alone.
proof fn lemma_run_prefix(a: Seq<Code>, b: Seq<Code>, k: nat, env: Env, mm: Machine)
    requires
        k <= a.len(),
        k <= b.len(),
        forall|i: int, e: Env|
            0 <= i < k ==> #[trigger] run(a[i], e, mm) == run(b[i], e, mm),
    ensures
        run_all(a, k, env, mm) == run_all(b, k, env, mm),
    decreases k,
{
    if k > 0 {
        lemma_run_prefix(a, b, (k - 1) as nat, env, mm);
        if let Outcome::Goes(e, v) = run_all(a, (k - 1) as nat, env, mm) {
            assert(run(a[k - 1], e, mm) == run(b[k - 1], e, mm));
        }
    }
}

/// What follows an outcome.
pub open spec fn run_behind(o: Outcome, s: Seq<Code>, k: nat, mm: Machine) -> Outcome {
    if k == 0 {
        o
    } else {
        match o {
            Outcome::Goes(e, _) => run_all(s, k, e, mm),
            other => other,
        }
    }
}

/// Two lists of statements, one behind the other.
proof fn lemma_run_append(a: Seq<Code>, b: Seq<Code>, k: nat, env: Env, mm: Machine)
    requires
        k <= b.len(),
    ensures
        run_all(a + b, a.len() + k, env, mm) == run_behind(
            run_all(a, a.len(), env, mm),
            b,
            k,
            mm,
        ),
    decreases k,
{
    let all = a + b;
    if k == 0 {
        assert forall|i: int, e: Env| 0 <= i < a.len() implies #[trigger] run(all[i], e, mm)
            == run(a[i], e, mm) by {
            assert(all[i] == a[i]);
        }
        lemma_run_prefix(all, a, a.len(), env, mm);
    } else {
        lemma_run_append(a, b, (k - 1) as nat, env, mm);
        assert(all[a.len() + k - 1] == b[k - 1]);
        if k == 1 {
            if let Outcome::Goes(e, v) = run_all(a, a.len(), env, mm) {
                assert(run_all(b, 0, e, mm) == Outcome::Goes(e, unit_value()));
            }
        }
    }
}

/// One statement as a list.
proof fn lemma_run_one(c: Code, env: Env, mm: Machine)
    ensures
        run_all(seq![c], 1, env, mm) == run(c, env, mm),
        run_all(
            crate::early_return_elimination::unwrapped(c),
            crate::early_return_elimination::unwrapped(c).len(),
            env,
            mm,
        ) == run(c, env, mm),
{
    assert(run_all(seq![c], 0, env, mm) == Outcome::Goes(env, unit_value()));
    assert(seq![c][0] == c);
}

/// A list of statements as one statement does what the list does.
proof fn lemma_run_single(s: Seq<Code>, env: Env, mm: Machine)
    ensures
        run(crate::early_return_elimination::single(s), env, mm) == run_all(s, s.len(), env, mm),
{
    if s.len() == 1 {
        assert(s =~= seq![s[0]]);
        lemma_run_one(s[0], env, mm);
    } else if s.len() == 0 {
        let none: Seq<Code> = Seq::empty();
        assert(run_tuple(none, 0, env, mm) == Outcome::Goes(env, unit_value()));
    }
}

/// Whether no block in a statement, or in a branch or a value of it, is empty.
pub open spec fn is_full(c: Code) -> bool
    decreases c,
{
    match c {
        Code::Block { children } => children.len() > 0 && all_full(children),
        Code::If { cond, then_branch, else_branch } => is_full(*cond) && is_full(*then_branch)
            && is_full(*else_branch),
        Code::Let { value, .. } => is_full(*value),
        Code::Match { scrutinee, cases, .. } => is_full(*scrutinee) && cases_full(cases),
        Code::While { cond, body, .. } => is_full(*cond) && is_full(*body),
        _ => true,
    }
}

/// Whether no block in the statements is empty.
pub open spec fn all_full(s: Seq<Code>) -> bool
    decreases s,
{
    forall|i: int| 0 <= i < s.len() ==> is_full(#[trigger] s[i])
}

/// Whether no block in the cases is empty.
pub open spec fn cases_full(s: Seq<(usize, Seq<Name>, Code)>) -> bool
    decreases s,
{
    forall|i: int| 0 <= i < s.len() ==> is_full((#[trigger] s[i]).2)
}

/// A branch with what comes behind its conditional has no empty block where these have none.
proof fn lemma_continued_full(pattern: Option<Seq<Name>>, branch: Code, rest: Seq<Code>)
    requires
        is_full(branch),
        all_full(rest),
    ensures
        is_full(crate::early_return_elimination::continued(pattern, branch, rest)),
{
    match pattern {
        Some(p) => {
            let first = Code::Let { pattern: p, value: Box::new(branch) };
            let all = seq![first] + rest;
            assert forall|i: int| 0 <= i < all.len() implies is_full(#[trigger] all[i]) by {
                if i > 0 {
                    assert(all[i] == rest[i - 1]);
                }
            }
            assert(all_full(all));
        },
        None => {
            if rest.len() > 0 {
                let behind = crate::early_return_elimination::single(rest);
                assert(is_full(rest[0]));
                assert(is_full(behind));
                let (a, b) = (
                    crate::early_return_elimination::unwrapped(branch),
                    crate::early_return_elimination::unwrapped(behind),
                );
                assert(all_full(a) && all_full(b));
                let all = a + b;
                assert forall|i: int| 0 <= i < all.len() implies is_full(#[trigger] all[i]) by {
                    if i < a.len() {
                        assert(all[i] == a[i]);
                    } else {
                        assert(all[i] == b[i - a.len()]);
                    }
                }
                assert(all_full(all));
            }
        },
    }
}

/// A branch with what comes behind its conditional does what the branch does, then what
/// comes behind it.
proof fn lemma_run_continued(
    pattern: Option<Seq<Name>>,
    branch: Code,
    rest: Seq<Code>,
    env: Env,
    mm: Machine,
)
    requires
        pattern is Some || all_full(rest),
    ensures
        run(crate::early_return_elimination::continued(pattern, branch, rest), env, mm)
            == run_behind(
            match pattern {
                Some(p) => run(Code::Let { pattern: p, value: Box::new(branch) }, env, mm),
                None => run(branch, env, mm),
            },
            rest,
            rest.len(),
            mm,
        ),
{
    match pattern {
        Some(p) => {
            let first = Code::Let { pattern: p, value: Box::new(branch) };
            lemma_run_append(seq![first], rest, rest.len(), env, mm);
            lemma_run_one(first, env, mm);
            assert((seq![first] + rest).len() == 1 + rest.len());
        },
        None => {
            if rest.len() > 0 {
                let behind = crate::early_return_elimination::single(rest);
                let (a, b) = (
                    crate::early_return_elimination::unwrapped(branch),
                    crate::early_return_elimination::unwrapped(behind),
                );
                lemma_run_one(branch, env, mm);
                lemma_run_append(a, b, b.len(), env, mm);
                match branch {
                    Code::Tuple(vs) if vs.len() == 0 => {
                        assert(run_tuple(vs, 0, env, mm) == Outcome::Goes(env, unit_value()));
                        lemma_run_single(rest, env, mm);
                    },
                    Code::Block { children } if children.len() == 0 => {
                        assert(run_all(children, 0, env, mm) == Outcome::Goes(env, unit_value()));
                        lemma_run_single(rest, env, mm);
                    },
                    _ => {
                        assert((a + b).len() == a.len() + b.len());
                        if let Outcome::Goes(e, v) = run(branch, env, mm) {
                            lemma_run_one(behind, e, mm);
                            lemma_run_single(rest, e, mm);
                            assert(is_full(rest[0]));
                        }
                    },
                }
            }
        },
    }
}

/// A statement with its tail returns made into values gives back what it did.
pub proof fn law_tail_values_are_given_back(c: Code, env: Env, mm: Machine)
    ensures
        given_back(run(crate::early_return_elimination::tail_stripped(c), env, mm)) == given_back(
            run(c, env, mm),
        ),
    decreases c,
{
    match c {
        Code::Block { children } => {
            if children.len() > 0 {
                let last = (children.len() - 1) as nat;
                let end = crate::early_return_elimination::tail_stripped(
                    children[children.len() - 1],
                );
                let out = children.drop_last().push(end);
                assert forall|i: int, e: Env| 0 <= i < last implies #[trigger] run(out[i], e, mm)
                    == run(children[i], e, mm) by {
                    assert(out[i] == children[i]);
                }
                lemma_run_prefix(out, children, last, env, mm);
                assert(out[last as int] == end);
                lemma_run_last(children, env, mm);
                lemma_run_last(out, env, mm);
                if let Outcome::Goes(e, v) = run_all(children, last, env, mm) {
                    law_tail_values_are_given_back(children[children.len() - 1], e, mm);
                }
            }
        },
        Code::If { cond, then_branch, else_branch } => {
            if let Outcome::Goes(e, v) = run(*cond, env, mm) {
                law_tail_values_are_given_back(*then_branch, e, mm);
                law_tail_values_are_given_back(*else_branch, e, mm);
            }
        },
        _ => {},
    }
}

/// The conditional that statements behind an early leave are moved into does what the early
/// leave does, then what stands behind it.
proof fn lemma_moved(
    first: Code,
    pattern: Option<Seq<Name>>,
    cond: Code,
    t: Code,
    e: Code,
    x: Code,
    y: Code,
    rest: Seq<Code>,
    keep: bool,
    env: Env,
    mm: Machine,
)
    requires
        crate::early_return_elimination::conditional(first) == Some((pattern, cond, t, e)),
        forall|at: Env|
            {
                let there = run_behind(
                    match pattern {
                        Some(p) => run(Code::Let { pattern: p, value: Box::new(t) }, at, mm),
                        None => run(t, at, mm),
                    },
                    rest,
                    rest.len(),
                    mm,
                );
                &&& given_back(#[trigger] run(x, at, mm)) == given_back(there)
                &&& keep ==> run(x, at, mm) == there
            },
        forall|at: Env|
            {
                let there = run_behind(
                    match pattern {
                        Some(p) => run(Code::Let { pattern: p, value: Box::new(e) }, at, mm),
                        None => run(e, at, mm),
                    },
                    rest,
                    rest.len(),
                    mm,
                );
                &&& given_back(#[trigger] run(y, at, mm)) == given_back(there)
                &&& keep ==> run(y, at, mm) == there
            },
    ensures
        ({
            let moved = Code::If {
                cond: Box::new(cond),
                then_branch: Box::new(x),
                else_branch: Box::new(y),
            };
            let there = run_behind(run(first, env, mm), rest, rest.len(), mm);
            &&& given_back(run(moved, env, mm)) == given_back(there)
            &&& keep ==> run(moved, env, mm) == there
        }),
{
    let moved = Code::If {
        cond: Box::new(cond),
        then_branch: Box::new(x),
        else_branch: Box::new(y),
    };
    let whole = Code::If {
        cond: Box::new(cond),
        then_branch: Box::new(t),
        else_branch: Box::new(e),
    };
    if let Some(p) = pattern {
        assert(first == Code::Let { pattern: p, value: Box::new(whole) });
        assert(run(first, env, mm) == match run(whole, env, mm) {
            Outcome::Goes(at, v) => Outcome::Goes(
                crate::meaning::bound(at, p, v),
                unit_value(),
            ),
            other => other,
        });
    }
    if let Outcome::Goes(at, v) = run(cond, env, mm) {
        assert(run(whole, env, mm) == if crate::meaning::truth(v) {
            run(t, at, mm)
        } else {
            run(e, at, mm)
        });
        assert(run(moved, env, mm) == if crate::meaning::truth(v) {
            run(x, at, mm)
        } else {
            run(y, at, mm)
        });
    }
}

/// A branch that control does not go past, as it is left, does what it does with anything
/// behind it.
proof fn lemma_left(
    pattern: Option<Seq<Name>>,
    t: Code,
    rest: Seq<Code>,
    keep: bool,
    at: Env,
    mm: Machine,
)
    requires
        crate::statements::terminates(t),
    ensures
        ({
            let there = run_behind(
                match pattern {
                    Some(p) => run(Code::Let { pattern: p, value: Box::new(t) }, at, mm),
                    None => run(t, at, mm),
                },
                rest,
                rest.len(),
                mm,
            );
            let x = crate::early_return_elimination::left(t, keep);
            &&& there == run(t, at, mm)
            &&& given_back(run(x, at, mm)) == given_back(there)
            &&& keep ==> run(x, at, mm) == there
        }),
{
    lemma_terminates(t, at, mm);
    law_tail_values_are_given_back(t, at, mm);
}

/// A restructured block gives back what the block does; where returns are kept, it does what
/// the block does. The statements behind an early leave are run exactly where they were.
pub proof fn law_a_restructured_block_does_the_same(c: Code, keep: bool, env: Env, mm: Machine)
    requires
        is_full(c),
    ensures
        given_back(run(crate::early_return_elimination::block_restructured(c, keep), env, mm))
            == given_back(run(c, env, mm)),
        keep ==> run(crate::early_return_elimination::block_restructured(c, keep), env, mm) == run(
            c,
            env,
            mm,
        ),
        keep ==> is_full(crate::early_return_elimination::block_restructured(c, keep)),
    decreases crate::statements::size(c), 1nat,
{
    if let Code::Block { children } = c {
        if children.len() >= 2 {
            crate::early_return_elimination::lemma_first_early(children, 0);
            if let Some(i) = crate::early_return_elimination::first_early(children, 0) {
                if let Some((pattern, cond, t, e)) = crate::early_return_elimination::conditional(
                    children[i],
                ) {
                    crate::early_return_elimination::lemma_continued_smaller(children, i);
                    lemma_restructured_at(c, i, pattern, cond, t, e, keep, env, mm);
                }
            }
        }
    }
}

/// The step of the restructuring at the first early leave.
proof fn lemma_restructured_at(
    c: Code,
    i: int,
    pattern: Option<Seq<Name>>,
    cond: Code,
    t: Code,
    e: Code,
    keep: bool,
    env: Env,
    mm: Machine,
)
    requires
        is_full(c),
        c matches Code::Block { children } && children.len() >= 2 && 0 <= i < children.len()
            && crate::early_return_elimination::first_early(children, 0) == Some(i)
            && crate::early_return_elimination::leaves_early(children[i])
            && crate::early_return_elimination::conditional(children[i]) == Some(
            (pattern, cond, t, e),
        ) && ({
            let rest = children.subrange(i + 1, children.len() as int);
            &&& crate::statements::size(
                crate::early_return_elimination::continued(pattern, t, rest),
            ) < crate::statements::size(c)
            &&& crate::statements::size(
                crate::early_return_elimination::continued(pattern, e, rest),
            ) < crate::statements::size(c)
        }),
    ensures
        given_back(run(crate::early_return_elimination::block_restructured(c, keep), env, mm))
            == given_back(run(c, env, mm)),
        keep ==> run(crate::early_return_elimination::block_restructured(c, keep), env, mm) == run(
            c,
            env,
            mm,
        ),
        keep ==> is_full(crate::early_return_elimination::block_restructured(c, keep)),
    decreases crate::statements::size(c), 0nat,
{
    let children = c->Block_children;
    let rest = children.subrange(i + 1, children.len() as int);
    let front = children.subrange(0, i);
    let first = children[i];
    assert(all_full(children));
    assert(is_full(first));
    if let Code::Let { value, .. } = first {
        assert(is_full(*value));
    }
    assert(is_full(cond) && is_full(t) && is_full(e));
    assert(all_full(rest)) by {
        assert forall|j: int| 0 <= j < rest.len() implies is_full(#[trigger] rest[j]) by {
            assert(rest[j] == children[i + 1 + j]);
        }
    }
    assert(all_full(front)) by {
        assert forall|j: int| 0 <= j < front.len() implies is_full(#[trigger] front[j]) by {
            assert(front[j] == children[j]);
        }
    }
    let then_on = crate::early_return_elimination::continued(pattern, t, rest);
    let else_on = crate::early_return_elimination::continued(pattern, e, rest);
    lemma_continued_full(pattern, t, rest);
    lemma_continued_full(pattern, e, rest);
    let stops_t = crate::statements::terminates(t);
    let stops_e = crate::statements::terminates(e);
    let x = if stops_t && stops_e {
        t
    } else if stops_t {
        crate::early_return_elimination::left(t, keep)
    } else {
        crate::early_return_elimination::block_restructured(then_on, keep)
    };
    let y = if stops_t && stops_e {
        e
    } else if stops_t {
        crate::early_return_elimination::block_restructured(else_on, keep)
    } else {
        crate::early_return_elimination::left(e, keep)
    };
    assert forall|at: Env|
        {
            let there = run_behind(
                match pattern {
                    Some(p) => run(Code::Let { pattern: p, value: Box::new(t) }, at, mm),
                    None => run(t, at, mm),
                },
                rest,
                rest.len(),
                mm,
            );
            &&& given_back(#[trigger] run(x, at, mm)) == given_back(there)
            &&& keep ==> run(x, at, mm) == there
        } by {
        if stops_t {
            lemma_left(pattern, t, rest, keep, at, mm);
        } else {
            lemma_run_continued(pattern, t, rest, at, mm);
            law_a_restructured_block_does_the_same(then_on, keep, at, mm);
        }
    }
    assert forall|at: Env|
        {
            let there = run_behind(
                match pattern {
                    Some(p) => run(Code::Let { pattern: p, value: Box::new(e) }, at, mm),
                    None => run(e, at, mm),
                },
                rest,
                rest.len(),
                mm,
            );
            &&& given_back(#[trigger] run(y, at, mm)) == given_back(there)
            &&& keep ==> run(y, at, mm) == there
        } by {
        if stops_e {
            lemma_left(pattern, e, rest, keep, at, mm);
        } else {
            lemma_run_continued(pattern, e, rest, at, mm);
            law_a_restructured_block_does_the_same(else_on, keep, at, mm);
        }
    }
    if !stops_t {
        law_a_restructured_block_does_the_same(then_on, keep, env, mm);
    }
    if !stops_e {
        law_a_restructured_block_does_the_same(else_on, keep, env, mm);
    }
    let moved = Code::If {
        cond: Box::new(cond),
        then_branch: Box::new(x),
        else_branch: Box::new(y),
    };
    let result = crate::early_return_elimination::block_restructured(c, keep);
    assert(result == if i == 0 {
        moved
    } else {
        Code::Block { children: front.push(moved) }
    });
    let ahead = front.push(first);
    assert(ahead + rest =~= children);
    lemma_run_append(ahead, rest, rest.len(), env, mm);
    lemma_run_ahead(front, first, env, mm);
    lemma_run_ahead(front, moved, env, mm);
    if let Outcome::Goes(at, v) = run_all(front, front.len(), env, mm) {
        lemma_moved(first, pattern, cond, t, e, x, y, rest, keep, at, mm);
    }
    if i == 0 {
        assert(run_all(front, 0, env, mm) == Outcome::Goes(env, unit_value()));
    }
    if keep {
        assert(is_full(x) && is_full(y));
        let out = front.push(moved);
        assert forall|j: int| 0 <= j < out.len() implies is_full(#[trigger] out[j]) by {
            if j < front.len() {
                assert(out[j] == front[j]);
            }
        }
        assert(all_full(out));
    }
}

/// One more statement behind others.
proof fn lemma_run_ahead(front: Seq<Code>, c: Code, env: Env, mm: Machine)
    ensures
        run_all(front.push(c), front.len() + 1, env, mm) == match run_all(
            front,
            front.len(),
            env,
            mm,
        ) {
            Outcome::Goes(e, _) => run(c, e, mm),
            other => other,
        },
{
    let all = front.push(c);
    assert forall|i: int, e: Env| 0 <= i < front.len() implies #[trigger] run(all[i], e, mm)
        == run(front[i], e, mm) by {
        assert(all[i] == front[i]);
    }
    lemma_run_prefix(all, front, front.len(), env, mm);
    assert(all[front.len() as int] == c);
}

/// A statement restructured with its returns kept does what the statement does.
pub proof fn law_restructuring_with_returns_does_the_same(c: Code, env: Env, mm: Machine)
    requires
        is_full(c),
    ensures
        run(crate::early_return_elimination::restructured(c, true), env, mm) == run(c, env, mm),
{
    lemma_restructured(c, mm);
}

/// Two statements that do the same from everywhere.
proof fn lemma_runs(a: Code, b: Code, mm: Machine)
    requires
        forall|e: Env| #[trigger] run(a, e, mm) == run(b, e, mm),
    ensures
        runs(a, mm) == runs(b, mm),
{
    assert forall|e: Env| #[trigger] runs(a, mm)(e) == runs(b, mm)(e) by {
        assert(runs(a, mm)(e) == run(a, e, mm));
        assert(runs(b, mm)(e) == run(b, e, mm));
    }
    assert(runs(a, mm) =~= runs(b, mm));
}

/// A statement restructured with its returns kept does what the statement does, from
/// everywhere.
proof fn lemma_restructured(c: Code, mm: Machine)
    requires
        is_full(c),
    ensures
        is_full(crate::early_return_elimination::restructured(c, true)),
        forall|env: Env|
            #[trigger] run(crate::early_return_elimination::restructured(c, true), env, mm) == run(
                c,
                env,
                mm,
            ),
    decreases c,
{
    let out = crate::early_return_elimination::restructured(c, true);
    match c {
        Code::While { cond, body, vars, invariants } => {
            lemma_restructured(*cond, mm);
            lemma_restructured(*body, mm);
            let (c1, b1) = (
                crate::early_return_elimination::restructured(*cond, true),
                crate::early_return_elimination::restructured(*body, true),
            );
            lemma_runs(c1, *cond, mm);
            lemma_runs(b1, *body, mm);
            assert(out == Code::While {
                cond: Box::new(c1),
                body: Box::new(b1),
                vars,
                invariants,
            });
            assert forall|env: Env| #[trigger] run(out, env, mm) == run(c, env, mm) by {
                assert(run(out, env, mm) == (mm.loops)(runs(c1, mm), runs(b1, mm), vars, env));
                assert(run(c, env, mm) == (mm.loops)(
                    runs(*cond, mm),
                    runs(*body, mm),
                    vars,
                    env,
                ));
            }
        },
        Code::Block { children } => {
            let kept = crate::early_return_elimination::reached(children, children.len(), true);
            lemma_reached(children, children.len(), mm);
            let inner = Code::Block { children: kept };
            assert(is_full(inner));
            assert forall|env: Env| #[trigger] run(out, env, mm) == run(c, env, mm) by {
                law_a_restructured_block_does_the_same(inner, true, env, mm);
                assert(run(inner, env, mm) == run_all(kept, kept.len(), env, mm));
                assert(run_all(children, children.len(), env, mm) == run(c, env, mm));
            }
            law_a_restructured_block_does_the_same(inner, true, |n: Name| unit_value(), mm);
        },
        Code::If { cond, then_branch, else_branch } => {
            lemma_restructured(*cond, mm);
            lemma_restructured(*then_branch, mm);
            lemma_restructured(*else_branch, mm);
            let (c1, t1, e1) = (
                crate::early_return_elimination::restructured(*cond, true),
                crate::early_return_elimination::restructured(*then_branch, true),
                crate::early_return_elimination::restructured(*else_branch, true),
            );
            assert(out == Code::If {
                cond: Box::new(c1),
                then_branch: Box::new(t1),
                else_branch: Box::new(e1),
            });
            assert forall|env: Env| #[trigger] run(out, env, mm) == run(c, env, mm) by {
                assert(run(c1, env, mm) == run(*cond, env, mm));
                if let Outcome::Goes(e, v) = run(*cond, env, mm) {
                    assert(run(t1, e, mm) == run(*then_branch, e, mm));
                    assert(run(e1, e, mm) == run(*else_branch, e, mm));
                }
            }
        },
        Code::Let { pattern, value } => {
            lemma_restructured(*value, mm);
            let v1 = crate::early_return_elimination::restructured(*value, true);
            assert(out == Code::Let { pattern, value: Box::new(v1) });
            assert forall|env: Env| #[trigger] run(out, env, mm) == run(c, env, mm) by {
                assert(run(v1, env, mm) == run(*value, env, mm));
            }
        },
        Code::Match { scrutinee, enum_id, cases } => {
            lemma_restructured(*scrutinee, mm);
            assert(cases_full(cases));
            lemma_cases_restructured(cases, cases.len(), mm);
            let news = crate::early_return_elimination::cases_restructured(cases, true);
            assert(cases_full(news));
            let from = crate::early_return_elimination::restructured(*scrutinee, true);
            assert(out == Code::Match { scrutinee: Box::new(from), enum_id, cases: news });
            assert forall|env: Env| #[trigger] run(out, env, mm) == run(c, env, mm) by {
                assert(run(from, env, mm) == run(*scrutinee, env, mm));
                if let Outcome::Goes(e, v) = run(*scrutinee, env, mm) {
                    let (tag, vs) = (mm.m.variant)(v);
                    assert(run_case(news, news.len(), tag, vs, e, mm) == run_case(
                        cases,
                        cases.len(),
                        tag,
                        vs,
                        e,
                        mm,
                    ));
                }
            }
        },
        _ => {},
    }
}

/// The statements of a block that control reaches do, restructured with their returns kept,
/// what the statements of the block do.
proof fn lemma_reached(s: Seq<Code>, k: nat, mm: Machine)
    requires
        k <= s.len(),
        all_full(s),
    ensures
        all_full(crate::early_return_elimination::reached(s, k, true)),
        k > 0 ==> crate::early_return_elimination::reached(s, k, true).len() > 0,
        forall|env: Env|
            run_all(
                crate::early_return_elimination::reached(s, k, true),
                crate::early_return_elimination::reached(s, k, true).len(),
                env,
                mm,
            ) == #[trigger] run_all(s, k, env, mm),
    decreases s, k,
{
    if k > 0 {
        lemma_reached(s, (k - 1) as nat, mm);
        let before = crate::early_return_elimination::reached(s, (k - 1) as nat, true);
        let all = crate::early_return_elimination::reached(s, k, true);
        if crate::early_return_elimination::stops_before(s, k - 1) {
            let i = choose|i: int|
                0 <= i < k - 1 && i < s.len() && crate::statements::terminates(#[trigger] s[i]);
            assert forall|env: Env|
                run_all(all, all.len(), env, mm) == #[trigger] run_all(s, k, env, mm) by {
                lemma_stopped(s, i, (k - 1) as nat, env, mm);
                assert(run_all(s, (k - 1) as nat, env, mm) == run_all(s, k, env, mm));
            }
        } else {
            lemma_restructured(s[k - 1], mm);
            let next = crate::early_return_elimination::restructured(s[k - 1], true);
            assert(all == before.push(next));
            assert forall|env: Env|
                run_all(all, all.len(), env, mm) == #[trigger] run_all(s, k, env, mm) by {
                lemma_run_ahead(before, next, env, mm);
                assert(run_all(before, before.len(), env, mm) == run_all(
                    s,
                    (k - 1) as nat,
                    env,
                    mm,
                ));
            }
            assert forall|j: int| 0 <= j < all.len() implies is_full(#[trigger] all[j]) by {
                if j < before.len() {
                    assert(all[j] == before[j]);
                }
            }
        }
    }
}

/// Control does not go past statements one of which ends it.
proof fn lemma_stopped(s: Seq<Code>, i: int, k: nat, env: Env, mm: Machine)
    requires
        0 <= i < k <= s.len(),
        crate::statements::terminates(s[i]),
    ensures
        !(run_all(s, k, env, mm) is Goes),
    decreases k,
{
    if i == k - 1 {
        if let Outcome::Goes(e, v) = run_all(s, (k - 1) as nat, env, mm) {
            lemma_terminates(s[i], e, mm);
        }
    } else {
        lemma_stopped(s, i, (k - 1) as nat, env, mm);
    }
}

/// Cases restructured with their returns kept do what the cases do.
proof fn lemma_cases_restructured(s: Seq<(usize, Seq<Name>, Code)>, k: nat, mm: Machine)
    requires
        k <= s.len(),
        cases_full(s),
    ensures
        forall|i: int|
            0 <= i < k ==> is_full(
                (#[trigger] crate::early_return_elimination::cases_restructured(s, true)[i]).2,
            ),
        forall|tag: usize, vs: Seq<Val>, env: Env|
            run_case(
                crate::early_return_elimination::cases_restructured(s, true),
                k,
                tag,
                vs,
                env,
                mm,
            ) == #[trigger] run_case(s, k, tag, vs, env, mm),
    decreases s, k,
{
    if k > 0 {
        lemma_cases_restructured(s, (k - 1) as nat, mm);
        lemma_restructured(s[k - 1].2, mm);
        let news = crate::early_return_elimination::cases_restructured(s, true);
        assert(news[k - 1] == (
            s[k - 1].0,
            s[k - 1].1,
            crate::early_return_elimination::restructured(s[k - 1].2, true),
        ));
        assert forall|tag: usize, vs: Seq<Val>, env: Env|
            run_case(news, k, tag, vs, env, mm) == #[trigger] run_case(s, k, tag, vs, env, mm) by {
            let at = crate::meaning::set_all(env, s[k - 1].1, vs, s[k - 1].1.len());
            assert(run(news[k - 1].2, at, mm) == run(s[k - 1].2, at, mm));
            assert(run_case(news, (k - 1) as nat, tag, vs, env, mm) == run_case(
                s,
                (k - 1) as nat,
                tag,
                vs,
                env,
                mm,
            ));
        }
    }
}

/// A value that ends in a conditional with a return does what stands before the conditional
/// does, then what the conditional does.
proof fn lemma_run_trailing(c: Code, env: Env, mm: Machine)
    ensures
        match crate::early_return_elimination::trailing(c) {
            Some((before, last)) => run(c, env, mm) == match run_all(
                before,
                before.len(),
                env,
                mm,
            ) {
                Outcome::Goes(e, _) => run(last, e, mm),
                other => other,
            },
            None => true,
        },
    decreases c,
{
    match c {
        Code::If { .. } => {
            let none: Seq<Code> = Seq::empty();
            assert(run_all(none, 0, env, mm) == Outcome::Goes(env, unit_value()));
        },
        Code::Block { children } => {
            if children.len() > 0 {
                let end = children[children.len() - 1];
                if let Some((before, last)) = crate::early_return_elimination::trailing(end) {
                    let front = children.drop_last();
                    lemma_run_last(children, env, mm);
                    assert forall|i: int, e: Env| 0 <= i < front.len() implies #[trigger] run(
                        front[i],
                        e,
                        mm,
                    ) == run(children[i], e, mm) by {
                        assert(front[i] == children[i]);
                    }
                    lemma_run_prefix(front, children, front.len(), env, mm);
                    lemma_run_append(front, before, before.len(), env, mm);
                    if let Outcome::Goes(e, v) = run_all(front, front.len(), env, mm) {
                        lemma_run_trailing(end, e, mm);
                        if before.len() == 0 {
                            assert(run_all(before, 0, e, mm) == Outcome::Goes(e, unit_value()));
                        }
                    }
                }
            }
        },
        _ => {},
    }
}

/// A block with its bindings of values that return made into conditionals does what the
/// block does.
pub proof fn law_a_hoisted_block_does_the_same(c: Code, env: Env, mm: Machine)
    ensures
        run(crate::early_return_elimination::block_hoisted(c), env, mm) == run(c, env, mm),
    decreases crate::statements::size(c), 1nat,
{
    if let Code::Block { children } = c {
        crate::early_return_elimination::lemma_first_binding(children, 0);
        if let Some(i) = crate::early_return_elimination::first_binding(children, 0) {
            if let Code::Let { pattern, value } = children[i] {
                if let Some((before, last)) = crate::early_return_elimination::trailing(*value) {
                    let rest = children.subrange(i + 1, children.len() as int);
                    let front = children.subrange(0, i);
                    let first = children[i];
                    crate::statements::lemma_total_at(children, i);
                    crate::early_return_elimination::lemma_trailing(*value);
                    let moved = crate::early_return_elimination::branches_hoisted(
                        last,
                        pattern,
                        rest,
                    );
                    let all = front + before + seq![moved];
                    let ahead = front.push(first);
                    assert(ahead + rest =~= children);
                    lemma_run_append(ahead, rest, rest.len(), env, mm);
                    lemma_run_ahead(front, first, env, mm);
                    assert(all =~= (front + before).push(moved));
                    lemma_run_ahead(front + before, moved, env, mm);
                    lemma_run_append(front, before, before.len(), env, mm);
                    if let Outcome::Goes(e, v) = run_all(front, front.len(), env, mm) {
                        lemma_run_trailing(*value, e, mm);
                        if before.len() == 0 {
                            assert(run_all(before, 0, e, mm) == Outcome::Goes(e, unit_value()));
                        }
                        if let Outcome::Goes(e1, w) = run_all(before, before.len(), e, mm) {
                            lemma_branches(last, pattern, rest, e1, mm);
                        }
                    }
                    let whole = crate::early_return_elimination::block_hoisted(c);
                    assert(whole == if all.len() == 1 {
                        all[0]
                    } else {
                        Code::Block { children: all }
                    });
                    if all.len() == 1 {
                        assert(all =~= seq![all[0]]);
                        lemma_run_one(all[0], env, mm);
                    }
                    assert(run(whole, env, mm) == run_all(all, all.len(), env, mm));
                    assert(run(c, env, mm) == run_all(children, children.len(), env, mm));
                }
            }
        }
    }
}

/// A value with its binding and the rest moved into its branches does what the binding does,
/// then what the rest does.
proof fn lemma_branches(c: Code, pattern: Seq<Name>, rest: Seq<Code>, env: Env, mm: Machine)
    ensures
        run(crate::early_return_elimination::branches_hoisted(c, pattern, rest), env, mm)
            == run_behind(
            run(Code::Let { pattern, value: Box::new(c) }, env, mm),
            rest,
            rest.len(),
            mm,
        ),
    decreases
            crate::statements::size(c) + crate::statements::total(rest) + 2,
            if c is If {
                0nat
            } else {
                2nat
            },
{
    let binding = Code::Let { pattern, value: Box::new(c) };
    let out = crate::early_return_elimination::branches_hoisted(c, pattern, rest);
    match c {
        Code::If { cond, then_branch, else_branch } => {
            let (t1, e1) = (
                crate::early_return_elimination::branches_hoisted(*then_branch, pattern, rest),
                crate::early_return_elimination::branches_hoisted(*else_branch, pattern, rest),
            );
            assert(out == Code::If {
                cond,
                then_branch: Box::new(t1),
                else_branch: Box::new(e1),
            });
            if let Outcome::Goes(e, v) = run(*cond, env, mm) {
                lemma_branches(*then_branch, pattern, rest, e, mm);
                lemma_branches(*else_branch, pattern, rest, e, mm);
                let chosen = if crate::meaning::truth(v) {
                    *then_branch
                } else {
                    *else_branch
                };
                assert(run(c, env, mm) == run(chosen, e, mm));
                assert(run(binding, env, mm) == run(
                    Code::Let { pattern, value: Box::new(chosen) },
                    e,
                    mm,
                ));
            }
        },
        _ => {
            if crate::statements::terminates(c) {
                lemma_terminates(c, env, mm);
            } else {
                crate::early_return_elimination::lemma_continued_size(Some(pattern), c, rest);
                lemma_run_continued(Some(pattern), c, rest, env, mm);
                law_a_hoisted_block_does_the_same(
                    crate::early_return_elimination::continued(Some(pattern), c, rest),
                    env,
                    mm,
                );
            }
        },
    }
}

/// A statement with the returns in the bodies of its loops hoisted out of bindings does what
/// the statement does.
pub proof fn law_hoisting_in_loops_does_the_same(c: Code, env: Env, mm: Machine)
    ensures
        run(crate::early_return_elimination::loops_hoisted(c), env, mm) == run(c, env, mm),
{
    lemma_hoisted(c, mm);
}

/// A statement with the returns in the bodies of its loops hoisted does what the statement
/// does, from everywhere.
proof fn lemma_hoisted(c: Code, mm: Machine)
    ensures
        forall|env: Env|
            #[trigger] run(crate::early_return_elimination::loops_hoisted(c), env, mm) == run(
                c,
                env,
                mm,
            ),
    decreases crate::early_return_elimination::loops(c), c,
{
    let out = crate::early_return_elimination::loops_hoisted(c);
    match c {
        Code::While { cond, body, vars, invariants } => {
            crate::early_return_elimination::lemma_block_hoisted_depth(
                *body,
                crate::early_return_elimination::loops(*body),
            );
            let inner = crate::early_return_elimination::block_hoisted(*body);
            let (c1, b1) = (
                crate::early_return_elimination::loops_hoisted(*cond),
                crate::early_return_elimination::loops_hoisted(inner),
            );
            lemma_hoisted(*cond, mm);
            lemma_hoisted(inner, mm);
            assert forall|e: Env| #[trigger] run(b1, e, mm) == run(*body, e, mm) by {
                law_a_hoisted_block_does_the_same(*body, e, mm);
            }
            lemma_runs(c1, *cond, mm);
            lemma_runs(b1, *body, mm);
            assert(out == Code::While {
                cond: Box::new(c1),
                body: Box::new(b1),
                vars,
                invariants,
            });
            assert forall|env: Env| #[trigger] run(out, env, mm) == run(c, env, mm) by {
                assert(run(out, env, mm) == (mm.loops)(runs(c1, mm), runs(b1, mm), vars, env));
                assert(run(c, env, mm) == (mm.loops)(
                    runs(*cond, mm),
                    runs(*body, mm),
                    vars,
                    env,
                ));
            }
        },
        Code::Block { children } => {
            let news = crate::early_return_elimination::all_hoisted(children);
            crate::early_return_elimination::lemma_depth(children);
            assert(out == Code::Block { children: news });
            assert forall|i: int, e: Env| 0 <= i < children.len() implies #[trigger] run(
                news[i],
                e,
                mm,
            ) == run(children[i], e, mm) by {
                lemma_hoisted(children[i], mm);
                assert(news[i] == crate::early_return_elimination::loops_hoisted(children[i]));
            }
            assert forall|env: Env| #[trigger] run(out, env, mm) == run(c, env, mm) by {
                lemma_run_prefix(news, children, children.len(), env, mm);
                assert(run(out, env, mm) == run_all(news, news.len(), env, mm));
                assert(run(c, env, mm) == run_all(children, children.len(), env, mm));
            }
        },
        Code::If { cond, then_branch, else_branch } => {
            lemma_hoisted(*cond, mm);
            lemma_hoisted(*then_branch, mm);
            lemma_hoisted(*else_branch, mm);
            let (c1, t1, e1) = (
                crate::early_return_elimination::loops_hoisted(*cond),
                crate::early_return_elimination::loops_hoisted(*then_branch),
                crate::early_return_elimination::loops_hoisted(*else_branch),
            );
            assert(out == Code::If {
                cond: Box::new(c1),
                then_branch: Box::new(t1),
                else_branch: Box::new(e1),
            });
            assert forall|env: Env| #[trigger] run(out, env, mm) == run(c, env, mm) by {
                assert(run(c1, env, mm) == run(*cond, env, mm));
                if let Outcome::Goes(e, v) = run(*cond, env, mm) {
                    assert(run(t1, e, mm) == run(*then_branch, e, mm));
                    assert(run(e1, e, mm) == run(*else_branch, e, mm));
                }
            }
        },
        Code::Let { pattern, value } => {
            lemma_hoisted(*value, mm);
            let v1 = crate::early_return_elimination::loops_hoisted(*value);
            assert(out == Code::Let { pattern, value: Box::new(v1) });
            assert forall|env: Env| #[trigger] run(out, env, mm) == run(c, env, mm) by {
                assert(run(v1, env, mm) == run(*value, env, mm));
            }
        },
        Code::Match { scrutinee, enum_id, cases } => {
            lemma_hoisted(*scrutinee, mm);
            let news = crate::early_return_elimination::cases_hoisted(cases);
            crate::early_return_elimination::lemma_case_depth(cases, cases.len());
            let from = crate::early_return_elimination::loops_hoisted(*scrutinee);
            assert(out == Code::Match { scrutinee: Box::new(from), enum_id, cases: news });
            assert forall|i: int| 0 <= i < cases.len() implies same_case(
                #[trigger] news[i],
                cases[i],
                mm,
            ) by {
                lemma_hoisted(cases[i].2, mm);
            }
            assert forall|env: Env| #[trigger] run(out, env, mm) == run(c, env, mm) by {
                assert(run(from, env, mm) == run(*scrutinee, env, mm));
                if let Outcome::Goes(e, v) = run(*scrutinee, env, mm) {
                    let (tag, vs) = (mm.m.variant)(v);
                    lemma_same_cases(news, cases, cases.len(), tag, vs, e, mm);
                }
            }
        },
        _ => {},
    }
}

/// Whether two cases are for one variant, bind the same names and do the same.
pub open spec fn same_case(
    a: (usize, Seq<Name>, Code),
    b: (usize, Seq<Name>, Code),
    mm: Machine,
) -> bool {
    a.0 == b.0 && a.1 == b.1 && forall|e: Env| #[trigger] run(a.2, e, mm) == run(b.2, e, mm)
}

/// Cases that do the same one by one do the same together.
proof fn lemma_same_cases(
    a: Seq<(usize, Seq<Name>, Code)>,
    b: Seq<(usize, Seq<Name>, Code)>,
    k: nat,
    tag: usize,
    vs: Seq<Val>,
    env: Env,
    mm: Machine,
)
    requires
        k <= a.len(),
        k <= b.len(),
        forall|i: int| 0 <= i < k ==> same_case(#[trigger] a[i], b[i], mm),
    ensures
        run_case(a, k, tag, vs, env, mm) == run_case(b, k, tag, vs, env, mm),
    decreases k,
{
    if k > 0 {
        lemma_same_cases(a, b, (k - 1) as nat, tag, vs, env, mm);
        assert(same_case(a[k - 1], b[k - 1], mm));
        let at = crate::meaning::set_all(env, b[k - 1].1, vs, b[k - 1].1.len());
        assert(run(a[k - 1].2, at, mm) == run(b[k - 1].2, at, mm));
    }
}

/// A statement with its early returns eliminated gives back what the restructured statement
/// does.
pub proof fn law_eliminating_returns_keeps_what_is_given_back(c: Code, env: Env, mm: Machine)
    ensures
        given_back(run(crate::early_return_elimination::returns_eliminated(c), env, mm))
            == given_back(run(crate::early_return_elimination::restructured(c, false), env, mm)),
{
    let inner = crate::early_return_elimination::restructured(c, false);
    law_hoisting_in_loops_does_the_same(inner, env, mm);
    law_tail_values_are_given_back(
        crate::early_return_elimination::loops_hoisted(inner),
        env,
        mm,
    );
}

/// Whether a statement is restructured alike with its returns kept and without.
pub open spec fn is_alike(c: Code) -> bool {
    crate::early_return_elimination::restructured(c, false)
        == crate::early_return_elimination::restructured(c, true)
}

/// A block of statements that are each restructured alike gives back, with its early returns
/// eliminated, what it does with them: the value that is returned first, or the value that
/// the block ends in.
pub proof fn law_a_block_without_early_returns_gives_back_the_same(
    children: Seq<Code>,
    env: Env,
    mm: Machine,
)
    requires
        is_full(Code::Block { children }),
        forall|i: int| 0 <= i < children.len() ==> is_alike(#[trigger] children[i]),
    ensures
        given_back(
            run(
                crate::early_return_elimination::returns_eliminated(Code::Block { children }),
                env,
                mm,
            ),
        ) == given_back(run(Code::Block { children }, env, mm)),
{
    let c = Code::Block { children };
    let kept = crate::early_return_elimination::reached(children, children.len(), true);
    lemma_reached_alike(children, children.len());
    lemma_reached(children, children.len(), mm);
    let inner = Code::Block { children: kept };
    assert(is_full(inner));
    assert(crate::early_return_elimination::restructured(c, false)
        == crate::early_return_elimination::block_restructured(inner, false));
    law_a_restructured_block_does_the_same(inner, false, env, mm);
    assert(run(inner, env, mm) == run_all(kept, kept.len(), env, mm));
    assert(run_all(children, children.len(), env, mm) == run(c, env, mm));
    law_eliminating_returns_keeps_what_is_given_back(c, env, mm);
}

/// The statements that control reaches, where they are restructured alike.
proof fn lemma_reached_alike(s: Seq<Code>, k: nat)
    requires
        k <= s.len(),
        forall|i: int| 0 <= i < s.len() ==> is_alike(#[trigger] s[i]),
    ensures
        crate::early_return_elimination::reached(s, k, false)
            == crate::early_return_elimination::reached(s, k, true),
    decreases k,
{
    if k > 0 {
        lemma_reached_alike(s, (k - 1) as nat);
        assert(is_alike(s[k - 1]));
    }
}

} // verus!
