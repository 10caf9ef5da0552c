//! Early returns into nested conditionals.
//!
//! A conditional that returns in one branch, with statements behind it, becomes a
//! conditional that holds those statements in its other branch. In the body of a
//! loop the returns themselves stay; elsewhere a return in tail position becomes
//! the value that it returns.

use crate::ir::clone_names;
use crate::statements::{clone_stmts, Code, Stmt};
use crate::types::{Name, TempId};
use vstd::prelude::*;

verus! {

/// A conditional as a statement, or as the value of a binding: what it binds, its
/// condition and its two branches.
pub open spec fn conditional(c: Code) -> Option<(Option<Seq<Name>>, Code, Code, Code)> {
    match c {
        Code::If { cond, then_branch, else_branch } => Some(
            (None, *cond, *then_branch, *else_branch),
        ),
        Code::Let { pattern, value } => match *value {
            Code::If { cond, then_branch, else_branch } => Some(
                (Some(pattern), *cond, *then_branch, *else_branch),
            ),
            _ => None,
        },
        _ => None,
    }
}

/// Whether a statement is a conditional that control may not go past.
pub open spec fn leaves_early(c: Code) -> bool {
    match conditional(c) {
        Some((_, _, t, e)) => crate::statements::terminates(t) || crate::statements::terminates(e),
        None => false,
    }
}

/// The first statement from the `k`th on that is a conditional that control may
/// not go past.
pub open spec fn first_early(s: Seq<Code>, k: int) -> Option<int>
    decreases s.len() - k,
{
    if k < 0 || k >= s.len() {
        None
    } else if leaves_early(s[k]) {
        Some(k)
    } else {
        first_early(s, k + 1)
    }
}

/// A list of statements as one statement.
pub open spec fn single(s: Seq<Code>) -> Code {
    if s.len() == 1 {
        s[0]
    } else if s.len() == 0 {
        crate::statements::unit_code()
    } else {
        Code::Block { children: s }
    }
}

/// The statements that a statement stands for.
pub open spec fn unwrapped(c: Code) -> Seq<Code> {
    match c {
        Code::Block { children } => children,
        _ => seq![c],
    }
}

/// A branch, followed by the statements behind its conditional.
pub open spec fn followed(branch: Code, rest: Code) -> Code {
    match branch {
        Code::Tuple(vs) if vs.len() == 0 => rest,
        Code::Block { children } if children.len() == 0 => rest,
        _ => Code::Block { children: unwrapped(branch) + unwrapped(rest) },
    }
}

/// A branch that control goes past, with what comes behind it: bound to the names
/// that the conditional was bound to, and followed by the rest.
pub open spec fn continued(pattern: Option<Seq<Name>>, branch: Code, rest: Seq<Code>) -> Code {
    match pattern {
        Some(p) => Code::Block {
            children: seq![Code::Let { pattern: p, value: Box::new(branch) }] + rest,
        },
        None => if rest.len() == 0 {
            branch
        } else {
            followed(branch, single(rest))
        },
    }
}

/// A statement with the returns in its tail positions made into the values that
/// they return.
pub open spec fn tail_stripped(c: Code) -> Code
    decreases c,
{
    match c {
        Code::Return(vs) => if vs.len() == 1 {
            vs[0]
        } else {
            Code::Tuple(vs)
        },
        Code::Block { children } => if children.len() == 0 {
            c
        } else {
            Code::Block {
                children: children.drop_last().push(tail_stripped(children[children.len() - 1])),
            }
        },
        Code::If { cond, then_branch, else_branch } => Code::If {
            cond,
            then_branch: Box::new(tail_stripped(*then_branch)),
            else_branch: Box::new(tail_stripped(*else_branch)),
        },
        _ => c,
    }
}

/// A branch that control does not go past: as it is where returns are kept, and
/// else with its tail returns made into values.
pub open spec fn left(c: Code, keep: bool) -> Code {
    if keep {
        c
    } else {
        tail_stripped(c)
    }
}

/// A block with the statements behind its first early leave moved into the branch
/// that control goes past, and so on in that branch.
pub open spec fn block_restructured(c: Code, keep: bool) -> Code
    decreases crate::statements::size(c),
{
    match c {
        Code::Block { children } => if children.len() < 2 {
            c
        } else {
            match first_early(children, 0) {
                None => c,
                Some(i) => match conditional(children[i]) {
                    None => c,
                    Some((pattern, cond, t, e)) => {
                        let rest = children.subrange(i + 1, children.len() as int);
                        proof {
                            lemma_first_early(children, 0);
                            lemma_continued_smaller(children, i);
                        }
                        let moved = if crate::statements::terminates(t)
                            && crate::statements::terminates(e) {
                            Code::If {
                                cond: Box::new(cond),
                                then_branch: Box::new(t),
                                else_branch: Box::new(e),
                            }
                        } else if crate::statements::terminates(t) {
                            Code::If {
                                cond: Box::new(cond),
                                then_branch: Box::new(left(t, keep)),
                                else_branch: Box::new(
                                    block_restructured(continued(pattern, e, rest), keep),
                                ),
                            }
                        } else {
                            Code::If {
                                cond: Box::new(cond),
                                then_branch: Box::new(
                                    block_restructured(continued(pattern, t, rest), keep),
                                ),
                                else_branch: Box::new(left(e, keep)),
                            }
                        };
                        if i == 0 {
                            moved
                        } else {
                            Code::Block { children: children.subrange(0, i).push(moved) }
                        }
                    },
                },
            }
        },
        _ => c,
    }
}

/// Where the first early leave is.
pub proof fn lemma_first_early(s: Seq<Code>, k: int)
    requires
        0 <= k,
    ensures
        match first_early(s, k) {
            Some(i) => k <= i < s.len() && leaves_early(s[i]),
            None => forall|i: int| k <= i < s.len() ==> !leaves_early(#[trigger] s[i]),
        },
    decreases s.len() - k,
{
    if k < s.len() && !leaves_early(s[k]) {
        lemma_first_early(s, k + 1);
    }
}

/// A branch with what comes behind it is smaller than the block.
pub proof fn lemma_continued_smaller(s: Seq<Code>, i: int)
    requires
        0 <= i < s.len(),
    ensures
        match conditional(s[i]) {
            Some((pattern, _, t, e)) => {
                let rest = s.subrange(i + 1, s.len() as int);
                let whole = crate::statements::size(Code::Block { children: s });
                crate::statements::size(continued(pattern, t, rest)) < whole
                    && crate::statements::size(continued(pattern, e, rest)) < whole
            },
            None => true,
        },
{
    crate::statements::lemma_total_at(s, i);
    if let Some((pattern, cond, t, e)) = conditional(s[i]) {
        let rest = s.subrange(i + 1, s.len() as int);
        reveal_with_fuel(crate::statements::size, 3);
        crate::statements::lemma_size_positive(cond);
        crate::statements::lemma_size_positive(t);
        crate::statements::lemma_size_positive(e);
        lemma_continued_size(pattern, t, rest);
        lemma_continued_size(pattern, e, rest);
    }
}

/// The size of a branch with what comes behind it.
pub proof fn lemma_continued_size(pattern: Option<Seq<Name>>, branch: Code, rest: Seq<Code>)
    ensures
        crate::statements::size(continued(pattern, branch, rest)) <= 1 + (if pattern is Some {
            1nat
        } else {
            0nat
        }) + crate::statements::size(branch) + crate::statements::total(rest),
{
    match pattern {
        Some(p) => {
            let bound = Code::Let { pattern: p, value: Box::new(branch) };
            crate::statements::lemma_total_add(seq![bound], rest);
            crate::statements::lemma_total_one(bound);
        },
        None => {
            if rest.len() > 0 {
                let r = single(rest);
                if rest.len() == 1 {
                    assert(rest =~= seq![rest[0]]);
                    crate::statements::lemma_total_one(rest[0]);
                }
                assert(crate::statements::total(unwrapped(r)) <= crate::statements::total(rest))
                    by {
                    crate::statements::lemma_total_one(r);
                }
                assert(crate::statements::size(r) <= 1 + crate::statements::total(rest));
                crate::statements::lemma_total_add(unwrapped(branch), unwrapped(r));
                crate::statements::lemma_total_one(branch);
            }
        },
    }
}

/// A statement restructured throughout, the innermost first. Nothing stays behind a
/// statement that control does not go past, and in the body of a loop returns are
/// kept.
pub open spec fn restructured(c: Code, keep: bool) -> Code
    decreases c,
{
    match c {
        Code::While { cond, body, vars, invariants } => Code::While {
            cond: Box::new(restructured(*cond, keep)),
            body: Box::new(restructured(*body, true)),
            vars,
            invariants,
        },
        Code::Block { children } => block_restructured(
            Code::Block { children: reached(children, children.len(), keep) },
            keep,
        ),
        Code::If { cond, then_branch, else_branch } => Code::If {
            cond: Box::new(restructured(*cond, keep)),
            then_branch: Box::new(restructured(*then_branch, keep)),
            else_branch: Box::new(restructured(*else_branch, keep)),
        },
        Code::Let { pattern, value } => Code::Let {
            pattern,
            value: Box::new(restructured(*value, keep)),
        },
        Code::Match { scrutinee, enum_id, cases } => Code::Match {
            scrutinee: Box::new(restructured(*scrutinee, keep)),
            enum_id,
            cases: cases_restructured(cases, keep),
        },
        _ => c,
    }
}

/// The first `k` statements of a block, restructured, as far as control reaches
/// them.
pub open spec fn reached(s: Seq<Code>, k: nat, keep: bool) -> Seq<Code>
    decreases s, k,
{
    if k == 0 || k > s.len() {
        Seq::empty()
    } else if stops_before(s, k - 1) {
        reached(s, (k - 1) as nat, keep)
    } else {
        reached(s, (k - 1) as nat, keep).push(restructured(s[k - 1], keep))
    }
}

/// Whether control does not go past one of the first `k` statements.
pub open spec fn stops_before(s: Seq<Code>, k: int) -> bool {
    exists|i: int| 0 <= i < k && i < s.len() && crate::statements::terminates(#[trigger] s[i])
}

/// The cases of a match with their bodies restructured.
pub open spec fn cases_restructured(s: Seq<(usize, Seq<Name>, Code)>, keep: bool) -> Seq<
    (usize, Seq<Name>, Code),
>
    decreases s,
{
    Seq::new(
        s.len(),
        |i: int|
            if 0 <= i < s.len() {
                (s[i].0, s[i].1, restructured(s[i].2, keep))
            } else {
                arbitrary()
            },
    )
}

/// The conditional with a return that a value ends in, with the statements before
/// it.
pub open spec fn trailing(c: Code) -> Option<(Seq<Code>, Code)>
    decreases c,
{
    match c {
        Code::If { .. } => if crate::statements::has_return(c) {
            Some((Seq::empty(), c))
        } else {
            None
        },
        Code::Block { children } => if children.len() == 0 {
            None
        } else {
            match trailing(children[children.len() - 1]) {
                Some((before, last)) => Some((children.drop_last() + before, last)),
                None => None,
            }
        },
        _ => None,
    }
}

/// Whether a statement binds a value that ends in a conditional with a return.
pub open spec fn binds_return(c: Code) -> bool {
    match c {
        Code::Let { value, .. } => trailing(*value) is Some,
        _ => false,
    }
}

/// The first statement from the `k`th on that binds a value that ends in a
/// conditional with a return.
pub open spec fn first_binding(s: Seq<Code>, k: int) -> Option<int>
    decreases s.len() - k,
{
    if k < 0 || k >= s.len() {
        None
    } else if binds_return(s[k]) {
        Some(k)
    } else {
        first_binding(s, k + 1)
    }
}

/// Where the first such binding is.
pub proof fn lemma_first_binding(s: Seq<Code>, k: int)
    requires
        0 <= k,
    ensures
        match first_binding(s, k) {
            Some(i) => k <= i < s.len() && binds_return(s[i]),
            None => true,
        },
    decreases s.len() - k,
{
    if k < s.len() && !binds_return(s[k]) {
        lemma_first_binding(s, k + 1);
    }
}

/// The conditional that a value ends in is one, and no larger than the value;
/// smaller where the value is a block.
pub proof fn lemma_trailing(c: Code)
    ensures
        match trailing(c) {
            Some((before, last)) => last is If && crate::statements::size(last)
                <= crate::statements::size(c) && (c is Block ==> crate::statements::size(last)
                < crate::statements::size(c)),
            None => true,
        },
    decreases c,
{
    if let Code::Block { children } = c {
        if children.len() > 0 {
            let k = children.len() - 1;
            lemma_trailing(children[k]);
            crate::statements::lemma_total_at(children, k);
        }
    }
}

/// A block with its first binding of a value that returns made into a conditional:
/// the binding and the rest stand in the branches that do not return.
pub open spec fn block_hoisted(c: Code) -> Code
    decreases crate::statements::size(c), 1nat,
{
    match c {
        Code::Block { children } => match first_binding(children, 0) {
            None => c,
            Some(i) => match children[i] {
                Code::Let { pattern, value } => match trailing(*value) {
                    Some((before, last)) => {
                        let rest = children.subrange(i + 1, children.len() as int);
                        proof {
                            lemma_first_binding(children, 0);
                            crate::statements::lemma_total_at(children, i);
                            lemma_trailing(*value);
                        }
                        let all = children.subrange(0, i) + before + seq![
                            branches_hoisted(last, pattern, rest),
                        ];
                        if all.len() == 1 {
                            all[0]
                        } else {
                            Code::Block { children: all }
                        }
                    },
                    None => c,
                },
                _ => c,
            },
        },
        _ => c,
    }
}

/// The value of a binding with the binding and the rest moved into each branch that
/// control goes past.
pub open spec fn branches_hoisted(c: Code, pattern: Seq<Name>, rest: Seq<Code>) -> Code
    decreases
            crate::statements::size(c) + crate::statements::total(rest) + 2,
            if c is If {
                0nat
            } else {
                2nat
            },
{
    match c {
        Code::If { cond, then_branch, else_branch } => Code::If {
            cond,
            then_branch: Box::new(branches_hoisted(*then_branch, pattern, rest)),
            else_branch: Box::new(branches_hoisted(*else_branch, pattern, rest)),
        },
        _ => if crate::statements::terminates(c) {
            c
        } else {
            proof {
                lemma_continued_size(Some(pattern), c, rest);
            }
            block_hoisted(continued(Some(pattern), c, rest))
        },
    }
}

/// How deep loops are nested in a statement.
pub open spec fn loops(c: Code) -> nat
    decreases c,
{
    match c {
        Code::Return(vs) => deepest(vs, vs.len()),
        Code::Block { children } => deepest(children, children.len()),
        Code::If { cond, then_branch, else_branch } => larger(
            loops(*cond),
            larger(loops(*then_branch), loops(*else_branch)),
        ),
        Code::Let { value, .. } => loops(*value),
        Code::Match { scrutinee, cases, .. } => larger(
            loops(*scrutinee),
            deepest_case(cases, cases.len()),
        ),
        Code::While { cond, body, invariants, .. } => 1 + larger(loops(*cond), loops(*body)),
        Code::Tuple(vs) => deepest(vs, vs.len()),
        _ => 0,
    }
}

/// The larger of two numbers.
pub open spec fn larger(a: nat, b: nat) -> nat {
    if a >= b {
        a
    } else {
        b
    }
}

/// How deep loops are nested in the first `k` statements.
pub open spec fn deepest(s: Seq<Code>, k: nat) -> nat
    decreases s, k,
{
    if k == 0 || k > s.len() {
        0
    } else {
        larger(deepest(s, (k - 1) as nat), loops(s[k - 1]))
    }
}

/// How deep loops are nested in the first `k` cases.
pub open spec fn deepest_case(s: Seq<(usize, Seq<Name>, Code)>, k: nat) -> nat
    decreases s, k,
{
    if k == 0 || k > s.len() {
        0
    } else {
        larger(deepest_case(s, (k - 1) as nat), loops(s[k - 1].2))
    }
}

/// Loops are nested at most so deep in a list, if and only if they are in each
/// statement.
proof fn lemma_deepest(s: Seq<Code>, k: nat, d: nat)
    requires
        k <= s.len(),
    ensures
        deepest(s, k) <= d <==> (forall|i: int| 0 <= i < k ==> loops(#[trigger] s[i]) <= d),
    decreases k,
{
    if k > 0 {
        lemma_deepest(s, (k - 1) as nat, d);
        if deepest(s, (k - 1) as nat) <= d && loops(s[k - 1]) <= d {
            assert forall|i: int| 0 <= i < k implies loops(#[trigger] s[i]) <= d by {
                if i < k - 1 {
                }
            }
        }
    }
}

/// No case is nested deeper than all of them.
pub proof fn lemma_case_depth(s: Seq<(usize, Seq<Name>, Code)>, k: nat)
    requires
        k <= s.len(),
    ensures
        forall|i: int| 0 <= i < k ==> loops((#[trigger] s[i]).2) <= deepest_case(s, k),
    decreases k,
{
    if k > 0 {
        lemma_case_depth(s, (k - 1) as nat);
    }
}

/// No statement is nested deeper than all of them.
pub proof fn lemma_depth(s: Seq<Code>)
    ensures
        forall|i: int| 0 <= i < s.len() ==> loops(#[trigger] s[i]) <= deepest(s, s.len()),
{
    lemma_deepest(s, s.len(), deepest(s, s.len()));
}

/// The parts of a value that ends in a conditional are not nested deeper than it.
proof fn lemma_trailing_depth(c: Code, d: nat)
    requires
        loops(c) <= d,
        trailing(c) is Some,
    ensures
        ({
            let (before, last) = trailing(c)->0;
            loops(last) <= d && (forall|i: int|
                0 <= i < before.len() ==> loops(#[trigger] before[i]) <= d)
        }),
    decreases c,
{
    if let Code::Block { children } = c {
        lemma_deepest(children, children.len(), d);
        let k = children.len() - 1;
        lemma_trailing_depth(children[k], d);
        let (inner, last) = trailing(children[k])->0;
        let before = children.drop_last() + inner;
        assert forall|i: int| 0 <= i < before.len() implies loops(#[trigger] before[i]) <= d by {
            if i < k {
                assert(before[i] == children[i]);
            } else {
                assert(before[i] == inner[i - k]);
            }
        }
    }
}

/// Hoisting nests no loop deeper.
pub proof fn lemma_block_hoisted_depth(c: Code, d: nat)
    requires
        loops(c) <= d,
    ensures
        loops(block_hoisted(c)) <= d,
    decreases crate::statements::size(c), 1nat,
{
    if let Code::Block { children } = c {
        lemma_first_binding(children, 0);
        if let Some(i) = first_binding(children, 0) {
            lemma_deepest(children, children.len(), d);
            crate::statements::lemma_total_at(children, i);
            if let Code::Let { pattern, value } = children[i] {
                lemma_trailing(*value);
                lemma_trailing_depth(*value, d);
                let (before, last) = trailing(*value)->0;
                let rest = children.subrange(i + 1, children.len() as int);
                assert forall|j: int| 0 <= j < rest.len() implies loops(#[trigger] rest[j])
                    <= d by {
                    assert(rest[j] == children[i + 1 + j]);
                }
                lemma_branches_hoisted_depth(last, pattern, rest, d);
                let front = children.subrange(0, i);
                let h = branches_hoisted(last, pattern, rest);
                let all = front + before + seq![h];
                assert forall|j: int| 0 <= j < all.len() implies loops(#[trigger] all[j])
                    <= d by {
                    if j < front.len() {
                        assert(all[j] == children[j]);
                    } else if j < front.len() + before.len() {
                        assert(all[j] == before[j - front.len()]);
                    } else {
                        assert(all[j] == h);
                    }
                }
                lemma_deepest(all, all.len(), d);
            }
        }
    }
}

/// Hoisting nests no loop deeper.
proof fn lemma_branches_hoisted_depth(c: Code, pattern: Seq<Name>, rest: Seq<Code>, d: nat)
    requires
        loops(c) <= d,
        forall|j: int| 0 <= j < rest.len() ==> loops(#[trigger] rest[j]) <= d,
    ensures
        loops(branches_hoisted(c, pattern, rest)) <= d,
    decreases
            crate::statements::size(c) + crate::statements::total(rest) + 2,
            if c is If {
                0nat
            } else {
                2nat
            },
{
    match c {
        Code::If { cond, then_branch, else_branch } => {
            lemma_branches_hoisted_depth(*then_branch, pattern, rest, d);
            lemma_branches_hoisted_depth(*else_branch, pattern, rest, d);
        },
        _ => {
            if !crate::statements::terminates(c) {
                lemma_continued_size(Some(pattern), c, rest);
                let bound = Code::Let { pattern, value: Box::new(c) };
                let all = seq![bound] + rest;
                assert forall|j: int| 0 <= j < all.len() implies loops(#[trigger] all[j])
                    <= d by {
                    if j > 0 {
                        assert(all[j] == rest[j - 1]);
                    } else {
                        assert(all[j] == bound);
                    }
                }
                lemma_deepest(all, all.len(), d);
                lemma_block_hoisted_depth(continued(Some(pattern), c, rest), d);
            }
        },
    }
}

/// A statement with the returns in the bodies of its loops hoisted out of bindings.
pub open spec fn loops_hoisted(c: Code) -> Code
    decreases loops(c), c,
{
    match c {
        Code::While { cond, body, vars, invariants } => {
            proof {
                lemma_block_hoisted_depth(*body, loops(*body));
            }
            Code::While {
                cond: Box::new(loops_hoisted(*cond)),
                body: Box::new(loops_hoisted(block_hoisted(*body))),
                vars,
                invariants,
            }
        },
        Code::Block { children } => Code::Block { children: all_hoisted(children) },
        Code::If { cond, then_branch, else_branch } => Code::If {
            cond: Box::new(loops_hoisted(*cond)),
            then_branch: Box::new(loops_hoisted(*then_branch)),
            else_branch: Box::new(loops_hoisted(*else_branch)),
        },
        Code::Let { pattern, value } => Code::Let {
            pattern,
            value: Box::new(loops_hoisted(*value)),
        },
        Code::Match { scrutinee, enum_id, cases } => Code::Match {
            scrutinee: Box::new(loops_hoisted(*scrutinee)),
            enum_id,
            cases: cases_hoisted(cases),
        },
        _ => c,
    }
}

/// The statements with the returns in the bodies of their loops hoisted.
pub open spec fn all_hoisted(s: Seq<Code>) -> Seq<Code>
    decreases deepest(s, s.len()), s,
{
    proof {
        lemma_depth(s);
    }
    Seq::new(
        s.len(),
        |i: int|
            if 0 <= i < s.len() {
                loops_hoisted(s[i])
            } else {
                arbitrary()
            },
    )
}

/// The cases with the returns in the bodies of their loops hoisted.
pub open spec fn cases_hoisted(s: Seq<(usize, Seq<Name>, Code)>) -> Seq<(usize, Seq<Name>, Code)>
    decreases deepest_case(s, s.len()), s,
{
    proof {
        lemma_case_depth(s, s.len());
    }
    Seq::new(
        s.len(),
        |i: int|
            if 0 <= i < s.len() {
                (s[i].0, s[i].1, loops_hoisted(s[i].2))
            } else {
                arbitrary()
            },
    )
}

/// A statement with its early returns eliminated.
pub open spec fn returns_eliminated(c: Code) -> Code {
    tail_stripped(loops_hoisted(restructured(c, false)))
}

/// Some of the statements of a list.
fn clone_range(v: &Vec<Stmt>, from: usize, to: usize) -> (r: Vec<Stmt>)
    requires
        from <= to <= v.len(),
    ensures
        Stmt::views(r@) == Stmt::views(v@).subrange(from as int, to as int),
{
    let mut out: Vec<Stmt> = Vec::new();
    let mut i: usize = from;
    while i < to
        invariant
            from <= i <= to <= v.len(),
            out@.len() == i - from,
            forall|j: int| 0 <= j < out@.len() ==> (#[trigger] out@[j])@ == v@[from + j]@,
        decreases to - i,
    {
        out.push(v[i].clone());
        i += 1;
    }
    assert(Stmt::views(out@) =~= Stmt::views(v@).subrange(from as int, to as int));
    out
}

/// Makes the returns in the tail positions into the values that they return.
fn strip_tail_returns(node: &Stmt) -> (r: Stmt)
    ensures
        r@ == tail_stripped(node@),
    decreases node,
{
    match node {
        Stmt::Return(vs) => {
            assert(Stmt::views(vs@).len() == vs@.len());
            if vs.len() == 1 {
                assert(Stmt::views(vs@)[0] == vs@[0]@);
                vs[0].clone()
            } else {
                Stmt::Tuple(clone_stmts(vs))
            }
        },
        Stmt::Block { children } => {
            let ghost cs = Stmt::views(children@);
            assert(cs.len() == children@.len());
            if children.len() == 0 {
                return node.clone();
            }
            let k = children.len() - 1;
            assert(cs[k as int] == children@[k as int]@);
            let mut out = clone_range(children, 0, k);
            let last = strip_tail_returns(&children[k]);
            let ghost before = out@;
            assert(Stmt::views(before).len() == before.len());
            out.push(last);
            assert(Stmt::views(out@) =~= cs.drop_last().push(tail_stripped(cs[k as int]))) by {
                assert forall|j: int| 0 <= j < k implies Stmt::views(out@)[j] == cs[j] by {
                    assert(Stmt::views(before)[j] == before[j]@);
                    assert(cs.subrange(0, k as int)[j] == cs[j]);
                }
            }
            Stmt::Block { children: out }
        },
        Stmt::If { cond, then_branch, else_branch } => Stmt::If {
            cond: cond.clone(),
            then_branch: Box::new(strip_tail_returns(then_branch)),
            else_branch: Box::new(strip_tail_returns(else_branch)),
        },
        _ => node.clone(),
    }
}

/// The names that a conditional is bound to.
pub open spec fn bound_names(p: Option<&Vec<TempId>>) -> Option<Seq<Name>> {
    match p {
        Some(v) => Some(crate::ir::names(v@)),
        None => None,
    }
}

/// A conditional as a statement, or as the value of a binding.
fn as_conditional(c: &Stmt) -> (r: Option<(Option<&Vec<TempId>>, &Stmt, &Stmt, &Stmt)>)
    ensures
        conditional(c@) == (match r {
            Some((p, cond, t, e)) => Some((bound_names(p), cond@, t@, e@)),
            None => None,
        }),
{
    match c {
        Stmt::If { cond, then_branch, else_branch } => Some(
            (None, &**cond, &**then_branch, &**else_branch),
        ),
        Stmt::Let { pattern, value } => {
            reveal_with_fuel(Stmt::view, 2);
            match &**value {
                Stmt::If { cond, then_branch, else_branch } => Some(
                    (Some(pattern), &**cond, &**then_branch, &**else_branch),
                ),
                _ => None,
            }
        },
        _ => None,
    }
}

/// The first statement that is a conditional that control may not go past.
fn find_early(children: &Vec<Stmt>) -> (r: Option<usize>)
    ensures
        match r {
            Some(i) => first_early(Stmt::views(children@), 0) == Some(i as int),
            None => first_early(Stmt::views(children@), 0) is None,
        },
{
    let ghost cs = Stmt::views(children@);
    let mut i: usize = 0;
    while i < children.len()
        invariant
            i <= children.len(),
            cs == Stmt::views(children@),
            cs.len() == children@.len(),
            first_early(cs, 0) == first_early(cs, i as int),
        decreases children.len() - i,
    {
        assert(cs[i as int] == children@[i as int]@);
        if let Some((_, _, t, e)) = as_conditional(&children[i]) {
            if t.terminates() || e.terminates() {
                return Some(i);
            }
        }
        i += 1;
    }
    None
}

/// A list of statements as one statement.
fn make_single_node(nodes: Vec<Stmt>) -> (r: Stmt)
    ensures
        r@ == single(Stmt::views(nodes@)),
{
    let ghost ns = Stmt::views(nodes@);
    assert(ns.len() == nodes@.len());
    if nodes.len() == 1 {
        assert(ns[0] == nodes@[0]@);
        nodes[0].clone()
    } else if nodes.len() == 0 {
        assert(Stmt::views(nodes@) =~= Seq::empty());
        Stmt::Tuple(nodes)
    } else {
        Stmt::Block { children: nodes }
    }
}

/// The statements that a statement stands for.
fn unwrap_block(node: &Stmt) -> (r: Vec<Stmt>)
    ensures
        Stmt::views(r@) == unwrapped(node@),
{
    match node {
        Stmt::Block { children } => clone_stmts(children),
        _ => {
            let mut out: Vec<Stmt> = Vec::new();
            out.push(node.clone());
            assert(Stmt::views(out@) =~= seq![node@]);
            out
        },
    }
}

/// Puts statements behind others.
fn extend(front: &mut Vec<Stmt>, back: &Vec<Stmt>)
    ensures
        Stmt::views(final(front)@) == Stmt::views(old(front)@) + Stmt::views(back@),
{
    let ghost start = front@;
    let mut i: usize = 0;
    while i < back.len()
        invariant
            i <= back.len(),
            start == old(front)@,
            front@.len() == start.len() + i,
            forall|j: int| 0 <= j < start.len() ==> (#[trigger] front@[j]) == start[j],
            forall|j: int|
                start.len() <= j < start.len() + i ==> (#[trigger] front@[j])@ == back@[j
                    - start.len()]@,
        decreases back.len() - i,
    {
        front.push(back[i].clone());
        i += 1;
    }
    assert(Stmt::views(front@) =~= Stmt::views(start) + Stmt::views(back@));
}

/// A branch, followed by the statements behind its conditional.
fn merge_with_rest(branch: &Stmt, rest: Stmt) -> (r: Stmt)
    ensures
        r@ == followed(branch@, rest@),
{
    match branch {
        Stmt::Tuple(vs) => {
            assert(Stmt::views(vs@).len() == vs@.len());
            if vs.len() == 0 {
                return rest;
            }
        },
        Stmt::Block { children } => {
            assert(Stmt::views(children@).len() == children@.len());
            if children.len() == 0 {
                return rest;
            }
        },
        _ => {},
    }
    let mut merged = unwrap_block(branch);
    let back = unwrap_block(&rest);
    extend(&mut merged, &back);
    Stmt::Block { children: merged }
}

/// A branch that control goes past, with what comes behind it.
fn continue_branch(pattern: Option<&Vec<TempId>>, branch: &Stmt, rest: Vec<Stmt>) -> (r: Stmt)
    ensures
        r@ == continued(bound_names(pattern), branch@, Stmt::views(rest@)),
{
    assert(Stmt::views(rest@).len() == rest@.len());
    match pattern {
        Some(p) => {
            let mut children: Vec<Stmt> = Vec::new();
            children.push(
                Stmt::Let { pattern: clone_names(p), value: Box::new(branch.clone()) },
            );
            assert(Stmt::views(children@) =~= seq![
                Code::Let { pattern: crate::ir::names(p@), value: Box::new(branch@) },
            ]);
            extend(&mut children, &rest);
            Stmt::Block { children }
        },
        None => {
            if rest.len() == 0 {
                branch.clone()
            } else {
                merge_with_rest(branch, make_single_node(rest))
            }
        },
    }
}

/// A branch that control does not go past.
fn leave(node: &Stmt, keep: bool) -> (r: Stmt)
    ensures
        r@ == left(node@, keep),
{
    if keep {
        node.clone()
    } else {
        strip_tail_returns(node)
    }
}

/// Moves the statements behind the first early leave of a block into the branch
/// that control goes past, and so on in that branch.
fn restructure_block(node: &Stmt, preserve_returns: bool) -> (r: Stmt)
    ensures
        r@ == block_restructured(node@, preserve_returns),
    decreases crate::statements::size(node@),
{
    let children = match node {
        Stmt::Block { children } => children,
        _ => {
            return node.clone();
        },
    };
    let ghost cs = Stmt::views(children@);
    assert(cs.len() == children@.len());
    if children.len() < 2 {
        return node.clone();
    }
    let i = match find_early(children) {
        Some(i) => i,
        None => {
            return node.clone();
        },
    };
    proof {
        lemma_first_early(cs, 0);
        lemma_continued_smaller(cs, i as int);
    }
    assert(cs[i as int] == children@[i as int]@);
    let (pattern, cond, t, e) = match as_conditional(&children[i]) {
        Some(parts) => parts,
        None => {
            return node.clone();
        },
    };
    let rest = clone_range(children, i + 1, children.len());
    let t_leaves = t.terminates();
    let e_leaves = e.terminates();
    let (new_then, new_else) = if t_leaves && e_leaves {
        (t.clone(), e.clone())
    } else if t_leaves {
        let past = continue_branch(pattern, e, rest);
        (leave(t, preserve_returns), restructure_block(&past, preserve_returns))
    } else {
        let past = continue_branch(pattern, t, rest);
        (restructure_block(&past, preserve_returns), leave(e, preserve_returns))
    };
    let moved = Stmt::If {
        cond: Box::new(cond.clone()),
        then_branch: Box::new(new_then),
        else_branch: Box::new(new_else),
    };
    if i == 0 {
        return moved;
    }
    let mut out = clone_range(children, 0, i);
    let ghost before = out@;
    assert(Stmt::views(before).len() == before.len());
    out.push(moved);
    assert(Stmt::views(out@) =~= cs.subrange(0, i as int).push(moved@)) by {
        assert forall|j: int| 0 <= j < i implies Stmt::views(out@)[j] == cs.subrange(
            0,
            i as int,
        )[j] by {
            assert(Stmt::views(before)[j] == before[j]@);
        }
    }
    Stmt::Block { children: out }
}

/// Nothing is reached behind a statement that control does not go past.
proof fn lemma_reached_stops(s: Seq<Code>, k: nat, m: nat, keep: bool)
    requires
        k <= m <= s.len(),
        stops_before(s, k as int),
    ensures
        reached(s, m, keep) == reached(s, k, keep),
    decreases m,
{
    if m > k {
        lemma_reached_stops(s, k, (m - 1) as nat, keep);
    }
}

/// Restructures a statement throughout, the innermost first.
fn restructure_recursive(node: &Stmt, preserve_returns: bool) -> (r: Stmt)
    ensures
        r@ == restructured(node@, preserve_returns),
    decreases node,
{
    match node {
        Stmt::While { cond, body, vars, invariants } => Stmt::While {
            cond: Box::new(restructure_recursive(cond, preserve_returns)),
            body: Box::new(restructure_recursive(body, true)),
            vars: clone_names(vars),
            invariants: clone_stmts(invariants),
        },
        Stmt::Block { children } => {
            let trimmed = restructure_reached(children, preserve_returns);
            assert(Stmt::views(children@).len() == children@.len());
            let block = Stmt::Block { children: trimmed };
            restructure_block(&block, preserve_returns)
        },
        Stmt::If { cond, then_branch, else_branch } => Stmt::If {
            cond: Box::new(restructure_recursive(cond, preserve_returns)),
            then_branch: Box::new(restructure_recursive(then_branch, preserve_returns)),
            else_branch: Box::new(restructure_recursive(else_branch, preserve_returns)),
        },
        Stmt::Let { pattern, value } => Stmt::Let {
            pattern: clone_names(pattern),
            value: Box::new(restructure_recursive(value, preserve_returns)),
        },
        Stmt::Match { scrutinee, enum_id, cases } => Stmt::Match {
            scrutinee: Box::new(restructure_recursive(scrutinee, preserve_returns)),
            enum_id: *enum_id,
            cases: restructure_cases(cases, preserve_returns),
        },
        _ => node.clone(),
    }
}

/// Restructures the statements of a block, as far as control reaches them.
fn restructure_reached(children: &Vec<Stmt>, preserve_returns: bool) -> (r: Vec<Stmt>)
    ensures
        Stmt::views(r@) == reached(Stmt::views(children@), children@.len(), preserve_returns),
    decreases children,
{
    let ghost cs = Stmt::views(children@);
    let mut out: Vec<Stmt> = Vec::new();
    let mut i: usize = 0;
    assert(Stmt::views(out@) =~= reached(cs, 0, preserve_returns));
    while i < children.len()
        invariant
            i <= children.len(),
            cs == Stmt::views(children@),
            cs.len() == children@.len(),
            Stmt::views(out@) == reached(cs, i as nat, preserve_returns),
            !stops_before(cs, i as int),
        decreases children.len() - i,
    {
        assert(cs[i as int] == children@[i as int]@);
        let stops = children[i].terminates();
        let done = restructure_recursive(&children[i], preserve_returns);
        let ghost before = out@;
        assert(Stmt::views(before).len() == before.len());
        out.push(done);
        assert(Stmt::views(out@) =~= Stmt::views(before).push(done@));
        assert(Stmt::views(out@) == reached(cs, (i + 1) as nat, preserve_returns));
        if stops {
            proof {
                lemma_reached_stops(cs, (i + 1) as nat, cs.len(), preserve_returns);
            }
            return out;
        }
        i += 1;
    }
    out
}

/// Restructures the bodies of the cases of a match.
fn restructure_cases(
    cases: &Vec<(usize, Vec<TempId>, Stmt)>,
    preserve_returns: bool,
) -> (r: Vec<(usize, Vec<TempId>, Stmt)>)
    ensures
        Stmt::case_views(r@) == cases_restructured(
            Stmt::case_views(cases@),
            preserve_returns,
        ),
    decreases cases,
{
    let ghost cs = Stmt::case_views(cases@);
    let mut out: Vec<(usize, Vec<TempId>, Stmt)> = Vec::new();
    let mut i: usize = 0;
    while i < cases.len()
        invariant
            i <= cases.len(),
            cs == Stmt::case_views(cases@),
            cs.len() == cases@.len(),
            out@.len() == i,
            forall|j: int| #![trigger out@[j]]
                0 <= j < i ==> out@[j].0 == cs[j].0 && crate::ir::names(out@[j].1@) == cs[j].1
                    && out@[j].2@ == restructured(cs[j].2, preserve_returns),
        decreases cases.len() - i,
    {
        assert(cs[i as int] == (
            cases@[i as int].0,
            crate::ir::names(cases@[i as int].1@),
            cases@[i as int].2@,
        ));
        let body = restructure_recursive(&cases[i].2, preserve_returns);
        out.push((cases[i].0, clone_names(&cases[i].1), body));
        i += 1;
    }
    assert(Stmt::case_views(out@) =~= cases_restructured(cs, preserve_returns));
    out
}

/// The conditional with a return that a value ends in, with the statements before
/// it.
fn split_trailing_if(node: &Stmt) -> (r: Option<(Vec<Stmt>, &Stmt)>)
    ensures
        trailing(node@) == (match r {
            Some((before, last)) => Some((Stmt::views(before@), last@)),
            None => None,
        }),
    decreases node,
{
    match node {
        Stmt::If { .. } => {
            if node.contains_return() {
                let none: Vec<Stmt> = Vec::new();
                assert(Stmt::views(none@) =~= Seq::empty());
                Some((none, node))
            } else {
                None
            }
        },
        Stmt::Block { children } => {
            let ghost cs = Stmt::views(children@);
            assert(cs.len() == children@.len());
            if children.len() == 0 {
                return None;
            }
            let k = children.len() - 1;
            assert(cs[k as int] == children@[k as int]@);
            match split_trailing_if(&children[k]) {
                Some((inner, last)) => {
                    let mut before = clone_range(children, 0, k);
                    assert(cs.subrange(0, k as int) =~= cs.drop_last());
                    extend(&mut before, &inner);
                    Some((before, last))
                },
                None => None,
            }
        },
        _ => None,
    }
}

/// The first statement that binds a value that ends in a conditional with a return.
fn find_binding(children: &Vec<Stmt>) -> (r: Option<usize>)
    ensures
        match r {
            Some(i) => first_binding(Stmt::views(children@), 0) == Some(i as int),
            None => first_binding(Stmt::views(children@), 0) is None,
        },
{
    let ghost cs = Stmt::views(children@);
    let mut i: usize = 0;
    while i < children.len()
        invariant
            i <= children.len(),
            cs == Stmt::views(children@),
            cs.len() == children@.len(),
            first_binding(cs, 0) == first_binding(cs, i as int),
        decreases children.len() - i,
    {
        assert(cs[i as int] == children@[i as int]@);
        if let Stmt::Let { value, .. } = &children[i] {
            if split_trailing_if(value).is_some() {
                return Some(i);
            }
        }
        i += 1;
    }
    None
}

/// Makes the first binding of a value that returns into a conditional.
fn hoist_returns_in_block(node: &Stmt) -> (r: Stmt)
    ensures
        r@ == block_hoisted(node@),
    decreases crate::statements::size(node@), 1nat,
{
    let children = match node {
        Stmt::Block { children } => children,
        _ => {
            return node.clone();
        },
    };
    let ghost cs = Stmt::views(children@);
    assert(cs.len() == children@.len());
    let i = match find_binding(children) {
        Some(i) => i,
        None => {
            return node.clone();
        },
    };
    proof {
        lemma_first_binding(cs, 0);
        crate::statements::lemma_total_at(cs, i as int);
    }
    let count = children.len();
    assert(i < count);
    assert(cs[i as int] == children@[i as int]@);
    let (pattern, value) = match &children[i] {
        Stmt::Let { pattern, value } => (pattern, value),
        _ => {
            return node.clone();
        },
    };
    proof {
        lemma_trailing((*value)@);
    }
    let (before, last) = match split_trailing_if(value) {
        Some(parts) => parts,
        None => {
            return node.clone();
        },
    };
    let rest = clone_range(children, i + 1, count);
    let hoisted = hoist_if_returns(last, pattern, &rest);
    let mut all = clone_range(children, 0, i);
    extend(&mut all, &before);
    let ghost front = all@;
    assert(Stmt::views(front).len() == front.len());
    all.push(hoisted);
    assert(Stmt::views(all@) =~= Stmt::views(front) + seq![hoisted@]);
    assert(Stmt::views(all@).len() == all@.len());
    if all.len() == 1 {
        assert(Stmt::views(all@)[0] == all@[0]@);
        all[0].clone()
    } else {
        Stmt::Block { children: all }
    }
}

/// Moves a binding and the rest into each branch of its value that control goes
/// past.
fn hoist_if_returns(node: &Stmt, pattern: &Vec<TempId>, rest: &Vec<Stmt>) -> (r: Stmt)
    ensures
        r@ == branches_hoisted(node@, crate::ir::names(pattern@), Stmt::views(rest@)),
    decreases
            crate::statements::size(node@) + crate::statements::total(Stmt::views(rest@)) + 2,
            if node@ is If {
                0nat
            } else {
                2nat
            },
{
    match node {
        Stmt::If { cond, then_branch, else_branch } => Stmt::If {
            cond: cond.clone(),
            then_branch: Box::new(hoist_if_returns(then_branch, pattern, rest)),
            else_branch: Box::new(hoist_if_returns(else_branch, pattern, rest)),
        },
        _ => {
            if node.terminates() {
                return node.clone();
            }
            let block = continue_branch(Some(pattern), node, clone_stmts(rest));
            proof {
                lemma_continued_size(
                    Some(crate::ir::names(pattern@)),
                    node@,
                    Stmt::views(rest@),
                );
            }
            hoist_returns_in_block(&block)
        },
    }
}

/// Hoists the returns in the bodies of loops out of bindings.
fn hoist_returns_from_while_lets(node: &Stmt) -> (r: Stmt)
    ensures
        r@ == loops_hoisted(node@),
    decreases loops(node@), node@,
{
    match node {
        Stmt::While { cond, body, vars, invariants } => {
            proof {
                lemma_block_hoisted_depth((*body)@, loops((*body)@));
            }
            let inner = hoist_returns_in_block(body);
            Stmt::While {
                cond: Box::new(hoist_returns_from_while_lets(cond)),
                body: Box::new(hoist_returns_from_while_lets(&inner)),
                vars: clone_names(vars),
                invariants: clone_stmts(invariants),
            }
        },
        Stmt::Block { children } => Stmt::Block { children: hoist_all(children) },
        Stmt::If { cond, then_branch, else_branch } => Stmt::If {
            cond: Box::new(hoist_returns_from_while_lets(cond)),
            then_branch: Box::new(hoist_returns_from_while_lets(then_branch)),
            else_branch: Box::new(hoist_returns_from_while_lets(else_branch)),
        },
        Stmt::Let { pattern, value } => Stmt::Let {
            pattern: clone_names(pattern),
            value: Box::new(hoist_returns_from_while_lets(value)),
        },
        Stmt::Match { scrutinee, enum_id, cases } => Stmt::Match {
            scrutinee: Box::new(hoist_returns_from_while_lets(scrutinee)),
            enum_id: *enum_id,
            cases: hoist_cases(cases),
        },
        _ => node.clone(),
    }
}

/// Hoists the returns in the bodies of the loops of statements.
fn hoist_all(children: &Vec<Stmt>) -> (r: Vec<Stmt>)
    ensures
        Stmt::views(r@) == all_hoisted(Stmt::views(children@)),
    decreases
            deepest(Stmt::views(children@), Stmt::views(children@).len()),
            Stmt::views(children@),
{
    let ghost cs = Stmt::views(children@);
    proof {
        lemma_depth(cs);
    }
    let mut out: Vec<Stmt> = Vec::new();
    let mut i: usize = 0;
    while i < children.len()
        invariant
            i <= children.len(),
            cs == Stmt::views(children@),
            cs.len() == children@.len(),
            out@.len() == i,
            forall|j: int| 0 <= j < cs.len() ==> loops(#[trigger] cs[j]) <= deepest(cs, cs.len()),
            forall|j: int| 0 <= j < i ==> (#[trigger] out@[j])@ == loops_hoisted(cs[j]),
        decreases children.len() - i,
    {
        assert(cs[i as int] == children@[i as int]@);
        assert(decreases_to!(cs => cs[i as int]));
        out.push(hoist_returns_from_while_lets(&children[i]));
        i += 1;
    }
    assert(Stmt::views(out@) =~= all_hoisted(cs));
    out
}

/// Hoists the returns in the bodies of the loops of cases.
fn hoist_cases(cases: &Vec<(usize, Vec<TempId>, Stmt)>) -> (r: Vec<(usize, Vec<TempId>, Stmt)>)
    ensures
        Stmt::case_views(r@) == cases_hoisted(Stmt::case_views(cases@)),
    decreases
            deepest_case(Stmt::case_views(cases@), Stmt::case_views(cases@).len()),
            Stmt::case_views(cases@),
{
    let ghost cs = Stmt::case_views(cases@);
    proof {
        lemma_case_depth(cs, cs.len());
    }
    let mut out: Vec<(usize, Vec<TempId>, Stmt)> = Vec::new();
    let mut i: usize = 0;
    while i < cases.len()
        invariant
            i <= cases.len(),
            cs == Stmt::case_views(cases@),
            cs.len() == cases@.len(),
            out@.len() == i,
            forall|j: int|
                0 <= j < cs.len() ==> loops((#[trigger] cs[j]).2) <= deepest_case(cs, cs.len()),
            forall|j: int| #![trigger out@[j]]
                0 <= j < i ==> out@[j].0 == cs[j].0 && crate::ir::names(out@[j].1@) == cs[j].1
                    && out@[j].2@ == loops_hoisted(cs[j].2),
        decreases cases.len() - i,
    {
        assert(cs[i as int] == (
            cases@[i as int].0,
            crate::ir::names(cases@[i as int].1@),
            cases@[i as int].2@,
        ));
        assert(decreases_to!(cs => cs[i as int]));
        assert(decreases_to!(cs[i as int] => cs[i as int].2));
        let body = hoist_returns_from_while_lets(&cases[i].2);
        out.push((cases[i].0, clone_names(&cases[i].1), body));
        i += 1;
    }
    assert(Stmt::case_views(out@) =~= cases_hoisted(cs));
    out
}

/// Eliminates early returns: the statements behind a conditional that leaves early
/// move into the branch that control goes past, returns inside bindings in loop
/// bodies become branches of their own, and a return in tail position becomes the
/// value that it returns.
pub fn eliminate_early_returns(node: Stmt) -> (r: Stmt)
    ensures
        r@ == returns_eliminated(node@),
{
    let restructured = restructure_recursive(&node, false);
    let hoisted = hoist_returns_from_while_lets(&restructured);
    strip_tail_returns(&hoisted)
}

/// Whether a tail position holds a return.
pub open spec fn ends_in_return(c: Code) -> bool
    decreases c,
{
    match c {
        Code::Return(_) => true,
        Code::Block { children } => children.len() > 0 && ends_in_return(
            children[children.len() - 1],
        ),
        Code::If { then_branch, else_branch, .. } => ends_in_return(*then_branch)
            || ends_in_return(*else_branch),
        _ => false,
    }
}

/// Whether the returns in tail positions return values that do not return
/// themselves.
pub open spec fn returns_values(c: Code) -> bool
    decreases c,
{
    match c {
        Code::Return(vs) => vs.len() == 1 ==> !ends_in_return(vs[0]),
        Code::Block { children } => children.len() > 0 ==> returns_values(
            children[children.len() - 1],
        ),
        Code::If { then_branch, else_branch, .. } => returns_values(*then_branch)
            && returns_values(*else_branch),
        _ => true,
    }
}

/// Nothing is stripped where no tail position holds a return.
proof fn lemma_nothing_to_strip(c: Code)
    requires
        !ends_in_return(c),
    ensures
        tail_stripped(c) == c,
    decreases c,
{
    match c {
        Code::Block { children } => {
            if children.len() > 0 {
                lemma_nothing_to_strip(children[children.len() - 1]);
                assert(children.drop_last().push(children[children.len() - 1]) =~= children);
            }
        },
        Code::If { then_branch, else_branch, .. } => {
            lemma_nothing_to_strip(*then_branch);
            lemma_nothing_to_strip(*else_branch);
        },
        _ => {},
    }
}

/// Stripping leaves no return in tail position, so stripping again changes nothing.
pub proof fn law_tails_are_values(c: Code)
    requires
        returns_values(c),
    ensures
        !ends_in_return(tail_stripped(c)),
        tail_stripped(tail_stripped(c)) == tail_stripped(c),
    decreases c,
{
    match c {
        Code::Block { children } => {
            if children.len() > 0 {
                law_tails_are_values(children[children.len() - 1]);
                let out = children.drop_last().push(
                    tail_stripped(children[children.len() - 1]),
                );
                assert(out[out.len() - 1] == tail_stripped(children[children.len() - 1]));
            }
        },
        Code::If { then_branch, else_branch, .. } => {
            law_tails_are_values(*then_branch);
            law_tails_are_values(*else_branch);
        },
        _ => {},
    }
    lemma_nothing_to_strip(tail_stripped(c));
}

/// What stands behind a statement that control does not go past makes no
/// difference.
pub proof fn law_unreached_makes_no_difference(
    front: Seq<Code>,
    stop: Code,
    behind: Seq<Code>,
    keep: bool,
)
    requires
        crate::statements::terminates(stop),
    ensures
        restructured(Code::Block { children: front.push(stop) + behind }, keep) == restructured(
            Code::Block { children: front.push(stop) },
            keep,
        ),
{
    let short = front.push(stop);
    let long = short + behind;
    assert(long[front.len() as int] == stop);
    assert(stops_before(long, short.len() as int));
    lemma_reached_stops(long, short.len(), long.len(), keep);
    lemma_reached_prefix(short, long, short.len(), keep);
}

/// What is reached depends on the statements up to there only.
proof fn lemma_reached_prefix(a: Seq<Code>, b: Seq<Code>, k: nat, keep: bool)
    requires
        k <= a.len() <= b.len(),
        forall|i: int| 0 <= i < a.len() ==> a[i] == b[i],
    ensures
        reached(a, k, keep) == reached(b, k, keep),
    decreases k,
{
    if k > 0 {
        lemma_reached_prefix(a, b, (k - 1) as nat, keep);
        if stops_before(a, k - 1) {
            let i = choose|i: int|
                0 <= i < k - 1 && i < a.len() && crate::statements::terminates(#[trigger] a[i]);
            assert(crate::statements::terminates(b[i]));
        }
        if stops_before(b, k - 1) {
            let i = choose|i: int|
                0 <= i < k - 1 && i < b.len() && crate::statements::terminates(#[trigger] b[i]);
            assert(crate::statements::terminates(a[i]));
        }
    }
}

/// A conditional that returns a value, with statements behind it, becomes a
/// conditional between the value and those statements.
pub proof fn law_guard_becomes_conditional(cond: Code, value: Code, rest: Seq<Code>)
    requires
        rest.len() > 0,
    ensures
        block_restructured(
            Code::Block {
                children: seq![
                    Code::If {
                        cond: Box::new(cond),
                        then_branch: Box::new(Code::Return(seq![value])),
                        else_branch: Box::new(crate::statements::unit_code()),
                    },
                ] + rest,
            },
            false,
        ) == (Code::If {
            cond: Box::new(cond),
            then_branch: Box::new(value),
            else_branch: Box::new(block_restructured(single(rest), false)),
        }),
{
    let guard = Code::If {
        cond: Box::new(cond),
        then_branch: Box::new(Code::Return(seq![value])),
        else_branch: Box::new(crate::statements::unit_code()),
    };
    let all = seq![guard] + rest;
    assert(all[0] == guard);
    assert(leaves_early(guard));
    assert(first_early(all, 0) == Some(0int));
    assert(all.subrange(1, all.len() as int) =~= rest);
    assert(continued(None, crate::statements::unit_code(), rest) == single(rest));
}

} // verus!
