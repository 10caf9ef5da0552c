//! Code before it is made into expressions: statements in blocks, with loops and
//! returns.

use crate::ir::{clone_names, IRNode, Node};
use crate::types::{Name, StructID, TempId};
use vstd::prelude::*;

verus! {

/// A statement, or an expression in its place.
#[derive(Debug)]
pub enum Stmt {
    Return(Vec<Stmt>),
    Abort(Option<IRNode>),
    Block { children: Vec<Stmt> },
    If { cond: Box<Stmt>, then_branch: Box<Stmt>, else_branch: Box<Stmt> },
    Let { pattern: Vec<TempId>, value: Box<Stmt> },
    Match { scrutinee: Box<Stmt>, enum_id: StructID, cases: Vec<(usize, Vec<TempId>, Stmt)> },
    While { cond: Box<Stmt>, body: Box<Stmt>, vars: Vec<TempId>, invariants: Vec<Stmt> },
    Tuple(Vec<Stmt>),
    Expr(IRNode),
}

/// What a [`Stmt`] holds.
#[verifier::ext_equal]
pub enum Code {
    Return(Seq<Code>),
    Abort(Option<Node>),
    Block { children: Seq<Code> },
    If { cond: Box<Code>, then_branch: Box<Code>, else_branch: Box<Code> },
    Let { pattern: Seq<Name>, value: Box<Code> },
    Match { scrutinee: Box<Code>, enum_id: StructID, cases: Seq<(usize, Seq<Name>, Code)> },
    While { cond: Box<Code>, body: Box<Code>, vars: Seq<Name>, invariants: Seq<Code> },
    Tuple(Seq<Code>),
    Expr(Node),
}

impl Stmt {
    /// What the statement holds.
    pub open spec fn view(&self) -> Code
        decreases self,
    {
        match *self {
            Stmt::Return(vs) => Code::Return(Stmt::views(vs@)),
            Stmt::Abort(code) => Code::Abort(crate::substitution::optional_node(code)),
            Stmt::Block { children } => Code::Block { children: Stmt::views(children@) },
            Stmt::If { cond, then_branch, else_branch } => Code::If {
                cond: Box::new((*cond).view()),
                then_branch: Box::new((*then_branch).view()),
                else_branch: Box::new((*else_branch).view()),
            },
            Stmt::Let { pattern, value } => Code::Let {
                pattern: crate::ir::names(pattern@),
                value: Box::new((*value).view()),
            },
            Stmt::Match { scrutinee, enum_id, cases } => Code::Match {
                scrutinee: Box::new((*scrutinee).view()),
                enum_id,
                cases: Stmt::case_views(cases@),
            },
            Stmt::While { cond, body, vars, invariants } => Code::While {
                cond: Box::new((*cond).view()),
                body: Box::new((*body).view()),
                vars: crate::ir::names(vars@),
                invariants: Stmt::views(invariants@),
            },
            Stmt::Tuple(vs) => Code::Tuple(Stmt::views(vs@)),
            Stmt::Expr(e) => Code::Expr(e@),
        }
    }

    /// What each of the statements holds.
    pub open spec fn views(s: Seq<Stmt>) -> Seq<Code>
        decreases s,
    {
        Seq::new(
            s.len(),
            |i: int|
                if 0 <= i < s.len() {
                    s[i].view()
                } else {
                    arbitrary()
                },
        )
    }

    /// What each of the cases of a match holds.
    pub open spec fn case_views(s: Seq<(usize, Vec<TempId>, Stmt)>) -> Seq<
        (usize, Seq<Name>, Code),
    >
        decreases s,
    {
        Seq::new(
            s.len(),
            |i: int|
                if 0 <= i < s.len() {
                    (s[i].0, crate::ir::names(s[i].1@), s[i].2.view())
                } else {
                    arbitrary()
                },
        )
    }
}

impl Clone for Stmt {
    fn clone(&self) -> (r: Self)
        ensures
            r@ == self@,
        decreases self,
    {
        match self {
            Stmt::Return(vs) => Stmt::Return(clone_stmts(vs)),
            Stmt::Abort(code) => Stmt::Abort(
                match code {
                    Some(c) => Some(c.clone()),
                    None => None,
                },
            ),
            Stmt::Block { children } => Stmt::Block { children: clone_stmts(children) },
            Stmt::If { cond, then_branch, else_branch } => Stmt::If {
                cond: Box::new((**cond).clone()),
                then_branch: Box::new((**then_branch).clone()),
                else_branch: Box::new((**else_branch).clone()),
            },
            Stmt::Let { pattern, value } => Stmt::Let {
                pattern: clone_names(pattern),
                value: Box::new((**value).clone()),
            },
            Stmt::Match { scrutinee, enum_id, cases } => Stmt::Match {
                scrutinee: Box::new((**scrutinee).clone()),
                enum_id: *enum_id,
                cases: clone_cases(cases),
            },
            Stmt::While { cond, body, vars, invariants } => Stmt::While {
                cond: Box::new((**cond).clone()),
                body: Box::new((**body).clone()),
                vars: clone_names(vars),
                invariants: clone_stmts(invariants),
            },
            Stmt::Tuple(vs) => Stmt::Tuple(clone_stmts(vs)),
            Stmt::Expr(e) => Stmt::Expr(e.clone()),
        }
    }
}

/// A copy of a list of statements.
pub fn clone_stmts(v: &Vec<Stmt>) -> (r: Vec<Stmt>)
    ensures
        Stmt::views(r@) == Stmt::views(v@),
    decreases v,
{
    let mut out: Vec<Stmt> = Vec::new();
    let mut i: usize = 0;
    while i < v.len()
        invariant
            i <= v.len(),
            out@.len() == i,
            forall|j: int| 0 <= j < i ==> (#[trigger] out@[j])@ == v@[j]@,
        decreases v.len() - i,
    {
        out.push(v[i].clone());
        i += 1;
    }
    assert(Stmt::views(out@) =~= Stmt::views(v@));
    out
}

/// A copy of a list of cases.
fn clone_cases(v: &Vec<(usize, Vec<TempId>, Stmt)>) -> (r: Vec<(usize, Vec<TempId>, Stmt)>)
    ensures
        Stmt::case_views(r@) == Stmt::case_views(v@),
    decreases v,
{
    let mut out: Vec<(usize, Vec<TempId>, Stmt)> = Vec::new();
    let mut i: usize = 0;
    while i < v.len()
        invariant
            i <= v.len(),
            out@.len() == i,
            forall|j: int| #![trigger out@[j]]
                0 <= j < i ==> out@[j].0 == v@[j].0 && out@[j].1@ == v@[j].1@ && out@[j].2@
                    == v@[j].2@,
        decreases v.len() - i,
    {
        out.push((v[i].0, clone_names(&v[i].1), v[i].2.clone()));
        i += 1;
    }
    assert(Stmt::case_views(out@) =~= Stmt::case_views(v@));
    out
}

/// The unit value.
pub open spec fn unit_code() -> Code {
    Code::Tuple(Seq::empty())
}

/// The number of statements in a statement, itself included.
pub open spec fn size(c: Code) -> nat
    decreases c,
{
    match c {
        Code::Return(vs) => 1 + sizes(vs, vs.len()),
        Code::Abort(_) => 1,
        Code::Block { children } => 1 + sizes(children, children.len()),
        Code::If { cond, then_branch, else_branch } => 1 + size(*cond) + size(*then_branch) + size(
            *else_branch,
        ),
        Code::Let { value, .. } => 1 + size(*value),
        Code::Match { scrutinee, cases, .. } => 1 + size(*scrutinee) + case_sizes(
            cases,
            cases.len(),
        ),
        Code::While { cond, body, invariants, .. } => 1 + size(*cond) + size(*body) + sizes(
            invariants,
            invariants.len(),
        ),
        Code::Tuple(vs) => 1 + sizes(vs, vs.len()),
        Code::Expr(_) => 1,
    }
}

/// The number of statements in the first `k` of a list.
pub open spec fn sizes(s: Seq<Code>, k: nat) -> nat
    decreases s, k,
{
    if k == 0 || k > s.len() {
        0
    } else {
        sizes(s, (k - 1) as nat) + size(s[k - 1])
    }
}

/// The number of statements in the first `k` cases.
pub open spec fn case_sizes(s: Seq<(usize, Seq<Name>, Code)>, k: nat) -> nat
    decreases s, k,
{
    if k == 0 || k > s.len() {
        0
    } else {
        case_sizes(s, (k - 1) as nat) + size(s[k - 1].2)
    }
}

/// The number of statements in a list.
pub open spec fn total(s: Seq<Code>) -> nat {
    sizes(s, s.len())
}

/// The sizes of the same statements at the beginning of two lists.
proof fn lemma_sizes_prefix(a: Seq<Code>, b: Seq<Code>, k: nat)
    requires
        k <= a.len(),
        k <= b.len(),
        forall|i: int| 0 <= i < k ==> a[i] == b[i],
    ensures
        sizes(a, k) == sizes(b, k),
    decreases k,
{
    if k > 0 {
        lemma_sizes_prefix(a, b, (k - 1) as nat);
    }
}

/// The size of a list with one more statement.
pub proof fn lemma_total_push(s: Seq<Code>, c: Code)
    ensures
        total(s.push(c)) == total(s) + size(c),
{
    lemma_sizes_prefix(s.push(c), s, s.len());
}

/// The size of two lists, one behind the other.
pub proof fn lemma_total_add(a: Seq<Code>, b: Seq<Code>)
    ensures
        total(a + b) == total(a) + total(b),
    decreases b.len(),
{
    if b.len() == 0 {
        assert(a + b =~= a);
    } else {
        let front = b.drop_last();
        lemma_total_add(a, front);
        assert(a + b =~= (a + front).push(b.last()));
        lemma_total_push(a + front, b.last());
        assert(b =~= front.push(b.last()));
        lemma_total_push(front, b.last());
    }
}

/// The size of a list, cut in three at a statement.
pub proof fn lemma_total_at(s: Seq<Code>, i: int)
    requires
        0 <= i < s.len(),
    ensures
        total(s) == total(s.subrange(0, i)) + size(s[i]) + total(
            s.subrange(i + 1, s.len() as int),
        ),
{
    let a = s.subrange(0, i);
    let b = s.subrange(i + 1, s.len() as int);
    assert(s =~= a.push(s[i]) + b);
    lemma_total_add(a.push(s[i]), b);
    lemma_total_push(a, s[i]);
}

/// The size of a list of one statement.
pub proof fn lemma_total_one(c: Code)
    ensures
        total(seq![c]) == size(c),
{
    assert(seq![c] =~= Seq::<Code>::empty().push(c));
    lemma_total_push(Seq::empty(), c);
}

/// Every statement counts.
pub proof fn lemma_size_positive(c: Code)
    ensures
        size(c) >= 1,
{
}

/// Whether control never goes past a statement: it returns or aborts, it is a block
/// whose last statement does not let control past, or all its branches do not.
pub open spec fn terminates(c: Code) -> bool
    decreases c,
{
    match c {
        Code::Return(_) => true,
        Code::Abort(_) => true,
        Code::Block { children } => children.len() > 0 && terminates(children[children.len() - 1]),
        Code::If { then_branch, else_branch, .. } => terminates(*then_branch) && terminates(
            *else_branch,
        ),
        Code::Match { cases, .. } => cases.len() > 0 && all_terminate(cases),
        _ => false,
    }
}

/// Whether control never goes past any of the cases.
pub open spec fn all_terminate(s: Seq<(usize, Seq<Name>, Code)>) -> bool
    decreases s,
{
    forall|i: int| 0 <= i < s.len() ==> terminates((#[trigger] s[i]).2)
}

impl Stmt {
    /// Whether control never goes past the statement.
    pub fn terminates(&self) -> (r: bool)
        ensures
            r == terminates(self@),
        decreases self,
    {
        match self {
            Stmt::Return(_) => true,
            Stmt::Abort(_) => true,
            Stmt::Block { children } => {
                assert(Stmt::views(children@).len() == children@.len());
                if children.len() == 0 {
                    return false;
                }
                let k = children.len() - 1;
                assert(Stmt::views(children@)[k as int] == children@[k as int]@);
                children[k].terminates()
            },
            Stmt::If { then_branch, else_branch, .. } => then_branch.terminates()
                && else_branch.terminates(),
            Stmt::Match { cases, .. } => {
                assert(Stmt::case_views(cases@).len() == cases@.len());
                cases.len() > 0 && do_all_terminate(cases)
            },
            _ => false,
        }
    }
}

/// Whether control never goes past any of the cases.
fn do_all_terminate(cases: &Vec<(usize, Vec<TempId>, Stmt)>) -> (r: bool)
    ensures
        r == all_terminate(Stmt::case_views(cases@)),
    decreases cases,
{
    let ghost vs = Stmt::case_views(cases@);
    let mut i: usize = 0;
    while i < cases.len()
        invariant
            i <= cases.len(),
            vs == Stmt::case_views(cases@),
            forall|j: int| 0 <= j < i ==> terminates((#[trigger] vs[j]).2),
        decreases cases.len() - i,
    {
        assert(vs[i as int].2 == cases@[i as int].2@);
        if !cases[i].2.terminates() {
            return false;
        }
        i += 1;
    }
    true
}

/// Whether a return stands anywhere in a statement.
pub open spec fn has_return(c: Code) -> bool
    decreases c,
{
    match c {
        Code::Return(_) => true,
        Code::Block { children } => some_return(children),
        Code::If { cond, then_branch, else_branch } => has_return(*cond) || has_return(
            *then_branch,
        ) || has_return(*else_branch),
        Code::Let { value, .. } => has_return(*value),
        Code::Match { scrutinee, cases, .. } => has_return(*scrutinee) || some_case_return(cases),
        Code::While { cond, body, invariants, .. } => has_return(*cond) || has_return(*body)
            || some_return(invariants),
        Code::Tuple(vs) => some_return(vs),
        _ => false,
    }
}

/// Whether a return stands anywhere in one of the statements.
pub open spec fn some_return(s: Seq<Code>) -> bool
    decreases s,
{
    exists|i: int| 0 <= i < s.len() && has_return(#[trigger] s[i])
}

/// Whether a return stands anywhere in one of the cases.
pub open spec fn some_case_return(s: Seq<(usize, Seq<Name>, Code)>) -> bool
    decreases s,
{
    exists|i: int| 0 <= i < s.len() && has_return((#[trigger] s[i]).2)
}

impl Stmt {
    /// Whether a return stands anywhere in the statement.
    pub fn contains_return(&self) -> (r: bool)
        ensures
            r == has_return(self@),
        decreases self,
    {
        match self {
            Stmt::Return(_) => true,
            Stmt::Block { children } => any_return(children),
            Stmt::If { cond, then_branch, else_branch } => cond.contains_return()
                || then_branch.contains_return() || else_branch.contains_return(),
            Stmt::Let { value, .. } => value.contains_return(),
            Stmt::Match { scrutinee, cases, .. } => scrutinee.contains_return() || any_case_return(
                cases,
            ),
            Stmt::While { cond, body, invariants, .. } => cond.contains_return()
                || body.contains_return() || any_return(invariants),
            Stmt::Tuple(vs) => any_return(vs),
            _ => false,
        }
    }
}

/// Whether a return stands anywhere in one of the statements.
fn any_return(v: &Vec<Stmt>) -> (r: bool)
    ensures
        r == some_return(Stmt::views(v@)),
    decreases v,
{
    let ghost vs = Stmt::views(v@);
    let mut i: usize = 0;
    while i < v.len()
        invariant
            i <= v.len(),
            vs == Stmt::views(v@),
            forall|j: int| 0 <= j < i ==> !has_return(#[trigger] vs[j]),
        decreases v.len() - i,
    {
        assert(vs[i as int] == v@[i as int]@);
        if v[i].contains_return() {
            return true;
        }
        i += 1;
    }
    false
}

/// Whether a return stands anywhere in one of the cases.
fn any_case_return(v: &Vec<(usize, Vec<TempId>, Stmt)>) -> (r: bool)
    ensures
        r == some_case_return(Stmt::case_views(v@)),
    decreases v,
{
    let ghost vs = Stmt::case_views(v@);
    let mut i: usize = 0;
    while i < v.len()
        invariant
            i <= v.len(),
            vs == Stmt::case_views(v@),
            forall|j: int| 0 <= j < i ==> !has_return((#[trigger] vs[j]).2),
        decreases v.len() - i,
    {
        assert(vs[i as int].2 == v@[i as int].2@);
        if v[i].2.contains_return() {
            return true;
        }
        i += 1;
    }
    false
}

} // verus!
