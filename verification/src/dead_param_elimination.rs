//! Removal of parameters that nothing uses, with the arguments given for them.
//!
//! A parameter that a function of a mutually recursive group only hands on, at the
//! same position, to functions of the group counts as unused; what one function of
//! the group uses, all of them keep.

use crate::ir::{IRNode, Node};
use crate::program::{slot_of, Func, Function, Param, Parameter, Prog, Program, Signature};
use crate::text::{ends_in, has_text};
use crate::traverse::{any_node, contains_id, map_nodes, uses_name, Rewrite, Test};
use crate::types::{FunctionID, Name, TempId};
use vstd::prelude::*;

verus! {

/// What is left of a list without the elements at some positions.
pub open spec fn without<T>(s: Seq<T>, gone: Seq<usize>) -> Seq<T>
    decreases s.len(),
{
    if s.len() == 0 {
        s
    } else {
        let before = without(s.drop_last(), gone);
        if gone.contains((s.len() - 1) as usize) {
            before
        } else {
            before.push(s.last())
        }
    }
}

/// Whether the parameters of a function may be removed: it is no native function,
/// it has parameters, and its name is neither that of a specification nor that of
/// an abort predicate.
pub open spec fn is_reducible(f: Func) -> bool {
    !f.is_native && f.signature.parameters.len() > 0 && !crate::text::occurs(f.name, "_spec"@)
        && !crate::text::ends(f.name, ".aborts"@)
}

/// Whether the parameters of a function may be removed.
fn may_reduce(f: &Function) -> (r: bool)
    ensures
        r == is_reducible(f@),
{
    assert(Parameter::views(f.signature.parameters@).len() == f.signature.parameters@.len());
    !f.is_native && f.signature.parameters.len() > 0 && !has_text(&f.name, "_spec") && !ends_in(
        &f.name,
        ".aborts",
    )
}

/// The functions of a mutually recursive group.
pub open spec fn members(fs: Seq<(FunctionID, Func)>, g: usize) -> Seq<FunctionID>
    decreases fs.len(),
{
    if fs.len() == 0 {
        Seq::empty()
    } else {
        let before = members(fs.drop_last(), g);
        if fs.last().1.mutual_group_id == Some(g) {
            before.push(fs.last().0)
        } else {
            before
        }
    }
}

/// The functions of a mutually recursive group.
fn find_members(program: &Program, g: usize) -> (r: Vec<FunctionID>)
    ensures
        r@ == members(program@.functions, g),
{
    let ghost fs = program@.functions;
    let mut out: Vec<FunctionID> = Vec::new();
    let mut i: usize = 0;
    assert(fs.subrange(0, 0) =~= Seq::empty());
    while i < program.functions.len()
        invariant
            i <= program.functions.len(),
            fs == program@.functions,
            out@ == members(fs.subrange(0, i as int), g),
        decreases program.functions.len() - i,
    {
        let ghost next = fs.subrange(0, i + 1);
        assert(next.drop_last() =~= fs.subrange(0, i as int));
        assert(next.last() == (program.functions@[i as int].0, program.functions@[i as int].1@));
        if let Some(h) = program.functions[i].1.mutual_group_id {
            if h == g {
                out.push(program.functions[i].0);
            }
        }
        i += 1;
    }
    assert(fs.subrange(0, i as int) =~= fs);
    out
}

/// Whether a direct subexpression is an argument, at the given position, of a call
/// of one of the functions.
pub open spec fn hands_on(n: Node, k: int, at: nat, ids: Seq<FunctionID>) -> bool {
    k == at && n.is_call_of(ids)
}

/// Whether the variable stands somewhere inside the expression other than as the
/// argument, at the given position, of a call of one of the functions.
pub open spec fn astray(n: Node, x: Name, at: nat, ids: Seq<FunctionID>) -> bool
    decreases n,
{
    proof {
        n.lemma_kids_decrease();
    }
    exists|k: int|
        0 <= k < n.kids().len() && ((#[trigger] n.kids()[k] == Node::Var(x) && !hands_on(
            n,
            k,
            at,
            ids,
        )) || astray(n.kids()[k], x, at, ids))
}

/// Whether the variable is only handed on: it stands in the expression, and
/// nowhere but as that argument of such calls.
pub open spec fn only_handed_on(n: Node, x: Name, at: nat, ids: Seq<FunctionID>) -> bool {
    n.any(|m: Node| m == Node::Var(x)) && n != Node::Var(x) && !astray(n, x, at, ids)
}

/// The test for a variable.
struct IsVar<'a> {
    x: &'a TempId,
}

impl<'a> Test for IsVar<'a> {
    closed spec fn holds(&self, n: Node) -> bool {
        n == Node::Var(self.x@)
    }

    fn check(&self, n: &IRNode) -> (r: bool) {
        match n {
            IRNode::Var(y) => *y == *self.x,
            _ => false,
        }
    }
}

/// Whether the expression is the variable.
fn is_var(n: &IRNode, x: &TempId) -> (r: bool)
    ensures
        r == (n@ == Node::Var(x@)),
{
    match n {
        IRNode::Var(y) => *y == *x,
        _ => false,
    }
}

/// Whether the expression calls one of the functions.
fn is_call_of(n: &IRNode, ids: &Vec<FunctionID>) -> (r: bool)
    ensures
        r == n@.is_call_of(ids@),
{
    match n {
        IRNode::Call { function, .. } => contains_id(ids, *function),
        _ => false,
    }
}

/// Whether the variable stands somewhere inside the expression other than as the
/// argument of such a call.
fn goes_astray(n: &IRNode, x: &TempId, at: usize, ids: &Vec<FunctionID>) -> (r: bool)
    ensures
        r == astray(n@, x@, at as nat, ids@),
    decreases n@,
{
    let call = is_call_of(n, ids);
    let ks = n.children();
    let mut i: usize = 0;
    proof {
        n@.lemma_kids_decrease();
    }
    while i < ks.len()
        invariant
            i <= ks.len(),
            call == n@.is_call_of(ids@),
            ks@.len() == n@.kids().len(),
            forall|j: int| 0 <= j < ks@.len() ==> (#[trigger] ks@[j])@ == n@.kids()[j],
            forall|j: int|
                0 <= j < i ==> !((#[trigger] n@.kids()[j] == Node::Var(x@) && !hands_on(
                    n@,
                    j,
                    at as nat,
                    ids@,
                )) || astray(n@.kids()[j], x@, at as nat, ids@)),
            forall|j: int| 0 <= j < n@.kids().len() ==> decreases_to!(
                n@ => #[trigger] n@.kids()[j]
            ),
        decreases ks.len() - i,
    {
        assert(ks@[i as int]@ == n@.kids()[i as int]);
        if is_var(ks[i], x) && !(i == at && call) {
            return true;
        }
        if goes_astray(ks[i], x, at, ids) {
            return true;
        }
        i += 1;
    }
    false
}

/// Whether the variable is only handed on.
fn is_only_handed_on(n: &IRNode, x: &TempId, at: usize, ids: &Vec<FunctionID>) -> (r: bool)
    ensures
        r == only_handed_on(n@, x@, at as nat, ids@),
{
    let t = IsVar { x };
    assert((|m: Node| t.holds(m)) =~= (|m: Node| m == Node::Var(x@)));
    any_node(n, &t) && !is_var(n, x) && !goes_astray(n, x, at, ids)
}

/// Whether a parameter is the last one that holds its variable.
pub open spec fn is_last_holder(ps: Seq<Param>, i: int) -> bool {
    forall|j: int| i < j < ps.len() ==> (#[trigger] ps[j]).ssa_value != ps[i].ssa_value
}

/// Whether a function uses its `i`th parameter.
pub open spec fn uses_param(p: Prog, f: Func, i: int) -> bool {
    let ps = f.signature.parameters;
    let x = ps[i].ssa_value;
    0 <= i < ps.len() && is_last_holder(ps, i) && f.body.uses(x) && match f.mutual_group_id {
        Some(g) => !only_handed_on(f.body, x, i as nat, members(p.functions, g)),
        None => true,
    }
}

/// Whether a parameter is the last one that holds its variable.
fn holds_last(ps: &Vec<Parameter>, i: usize) -> (r: bool)
    requires
        i < ps.len(),
    ensures
        r == is_last_holder(Parameter::views(ps@), i as int),
{
    let ghost vs = Parameter::views(ps@);
    let mut j: usize = i + 1;
    while j < ps.len()
        invariant
            i < j <= ps.len(),
            vs == Parameter::views(ps@),
            forall|k: int| i < k < j ==> (#[trigger] vs[k]).ssa_value != vs[i as int].ssa_value,
        decreases ps.len() - j,
    {
        assert(vs[j as int] == ps@[j as int]@);
        assert(vs[i as int] == ps@[i as int]@);
        if ps[j].ssa_value == ps[i].ssa_value {
            return false;
        }
        j += 1;
    }
    true
}

/// Whether a function uses its `i`th parameter.
fn does_use_param(program: &Program, f: &Function, i: usize) -> (r: bool)
    ensures
        r == uses_param(program@, f@, i as int),
{
    let ps = &f.signature.parameters;
    assert(Parameter::views(ps@).len() == ps@.len());
    if i >= ps.len() {
        return false;
    }
    assert(Parameter::views(ps@)[i as int] == ps@[i as int]@);
    let x = &ps[i].ssa_value;
    if !holds_last(ps, i) || !uses_name(&f.body, x) {
        return false;
    }
    match f.mutual_group_id {
        Some(g) => !is_only_handed_on(&f.body, x, i, &find_members(program, g)),
        None => true,
    }
}

/// Whether a function of the group uses its `i`th parameter.
pub open spec fn group_uses(p: Prog, g: usize, i: int) -> bool {
    exists|k: int|
        0 <= k < p.functions.len() && (#[trigger] p.functions[k]).1.mutual_group_id == Some(g)
            && is_reducible(p.functions[k].1) && uses_param(p, p.functions[k].1, i)
}

/// Whether the `i`th parameter of a function stays.
pub open spec fn keeps_param(p: Prog, f: Func, i: int) -> bool {
    match f.mutual_group_id {
        Some(g) => group_uses(p, g, i),
        None => uses_param(p, f, i),
    }
}

/// Whether a function of the group uses its `i`th parameter.
fn does_group_use(program: &Program, g: usize, i: usize) -> (r: bool)
    ensures
        r == group_uses(program@, g, i as int),
{
    let ghost p = program@;
    let mut k: usize = 0;
    while k < program.functions.len()
        invariant
            k <= program.functions.len(),
            p == program@,
            forall|j: int|
                0 <= j < k ==> !((#[trigger] p.functions[j]).1.mutual_group_id == Some(g)
                    && is_reducible(p.functions[j].1) && uses_param(
                    p,
                    p.functions[j].1,
                    i as int,
                )),
        decreases program.functions.len() - k,
    {
        assert(p.functions[k as int] == (
            program.functions@[k as int].0,
            program.functions@[k as int].1@,
        ));
        let f = &program.functions[k].1;
        if let Some(h) = f.mutual_group_id {
            if h == g && may_reduce(f) && does_use_param(program, f, i) {
                return true;
            }
        }
        k += 1;
    }
    false
}

/// The positions of the parameters, of the first `k`, that nothing uses.
pub open spec fn unused_params(p: Prog, f: Func, k: nat) -> Seq<usize>
    decreases k,
{
    if k == 0 {
        Seq::empty()
    } else {
        let before = unused_params(p, f, (k - 1) as nat);
        if keeps_param(p, f, k - 1) {
            before
        } else {
            before.push((k - 1) as usize)
        }
    }
}

/// The positions of the parameters that nothing uses, of each function that has
/// any.
pub open spec fn removals(p: Prog, fs: Seq<(FunctionID, Func)>) -> Seq<(FunctionID, Seq<usize>)>
    decreases fs.len(),
{
    if fs.len() == 0 {
        Seq::empty()
    } else {
        let before = removals(p, fs.drop_last());
        let (id, f) = fs.last();
        let gone = unused_params(p, f, f.signature.parameters.len());
        if is_reducible(f) && gone.len() > 0 {
            before.push((id, gone))
        } else {
            before
        }
    }
}

/// The positions of the parameters of a function that nothing uses.
fn find_unused(program: &Program, f: &Function) -> (r: Vec<usize>)
    ensures
        r@ == unused_params(program@, f@, f@.signature.parameters.len()),
{
    let n = f.signature.parameters.len();
    assert(f@.signature.parameters.len() == n);
    let mut out: Vec<usize> = Vec::new();
    let mut i: usize = 0;
    while i < n
        invariant
            i <= n,
            out@ == unused_params(program@, f@, i as nat),
        decreases n - i,
    {
        let kept = match f.mutual_group_id {
            Some(g) => does_group_use(program, g, i),
            None => does_use_param(program, f, i),
        };
        assert(kept == keeps_param(program@, f@, i as int));
        if !kept {
            out.push(i);
        }
        i += 1;
    }
    out
}

/// The positions of the parameters that nothing uses, of each function that has
/// any.
fn find_removals(program: &Program) -> (r: Vec<(FunctionID, Vec<usize>)>)
    ensures
        crate::program::index_views(r@) == removals(program@, program@.functions),
{
    let ghost fs = program@.functions;
    let mut out: Vec<(FunctionID, Vec<usize>)> = Vec::new();
    let mut i: usize = 0;
    assert(fs.subrange(0, 0) =~= Seq::empty());
    assert(crate::program::index_views(out@) =~= Seq::empty());
    while i < program.functions.len()
        invariant
            i <= program.functions.len(),
            fs == program@.functions,
            crate::program::index_views(out@) == removals(program@, fs.subrange(0, i as int)),
        decreases program.functions.len() - i,
    {
        let ghost next = fs.subrange(0, i + 1);
        assert(next.drop_last() =~= fs.subrange(0, i as int));
        assert(next.last() == (program.functions@[i as int].0, program.functions@[i as int].1@));
        let f = &program.functions[i].1;
        if may_reduce(f) {
            let ghost before = out@;
            let gone = find_unused(program, f);
            let ghost g = gone@;
            if gone.len() > 0 {
                out.push((program.functions[i].0, gone));
                assert(crate::program::index_views(out@) =~= crate::program::index_views(
                    before,
                ).push((program.functions@[i as int].0, g)));
            }
        }
        i += 1;
    }
    assert(fs.subrange(0, i as int) =~= fs);
    out
}

/// A call without the arguments for the parameters that are removed.
pub open spec fn fewer_args(n: Node, gone: Seq<(FunctionID, Seq<usize>)>) -> Node {
    match n {
        Node::Call { function, type_args, args } => match crate::program::lookup(gone, function) {
            Some(d) => Node::Call { function, type_args, args: without(args, d) },
            None => n,
        },
        _ => n,
    }
}

/// What is left of some expressions without those at some positions.
fn keep_others(args: Vec<IRNode>, gone: &Vec<usize>) -> (r: Vec<IRNode>)
    ensures
        IRNode::views(r@) == without(IRNode::views(args@), gone@),
{
    let ghost all = IRNode::views(args@);
    let mut out: Vec<IRNode> = Vec::new();
    let mut i: usize = 0;
    assert(all.subrange(0, 0) =~= Seq::empty());
    assert(IRNode::views(out@) =~= Seq::empty());
    while i < args.len()
        invariant
            i <= args.len(),
            all == IRNode::views(args@),
            IRNode::views(out@) == without(all.subrange(0, i as int), gone@),
        decreases args.len() - i,
    {
        let ghost next = all.subrange(0, i + 1);
        assert(next.drop_last() =~= all.subrange(0, i as int));
        assert(next.last() == args@[i as int]@);
        if !contains_id(gone, i) {
            let ghost before = IRNode::views(out@);
            out.push(args[i].clone());
            assert(IRNode::views(out@) =~= before.push(args@[i as int]@));
        }
        i += 1;
    }
    assert(all.subrange(0, i as int) =~= all);
    out
}

/// The step that removes arguments.
struct FewerArgs<'a> {
    gone: &'a Vec<(FunctionID, Vec<usize>)>,
}

impl<'a> Rewrite for FewerArgs<'a> {
    closed spec fn accepts(&self, n: Node) -> bool {
        true
    }

    closed spec fn step(&self, n: Node) -> Node {
        fewer_args(n, crate::program::index_views(self.gone@))
    }

    fn apply(&self, n: IRNode) -> (r: IRNode) {
        match n {
            IRNode::Call { function, type_args, args } => {
                proof {
                    crate::program::lemma_same_slots(
                        self.gone@,
                        crate::program::index_views(self.gone@),
                        function,
                    );
                }
                match slot_of(self.gone, function) {
                    Some(i) => IRNode::Call {
                        function,
                        type_args,
                        args: keep_others(args, &self.gone[i].1),
                    },
                    None => IRNode::Call { function, type_args, args },
                }
            },
            other => other,
        }
    }
}

/// Removes the arguments for the parameters that are removed.
fn remove_dead_args(node: &IRNode, gone: &Vec<(FunctionID, Vec<usize>)>) -> (r: IRNode)
    ensures
        r@ == node@.map(|n: Node| fewer_args(n, crate::program::index_views(gone@))),
{
    let t = FewerArgs { gone };
    proof {
        node@.lemma_map_accepts_all(|n: Node| t.step(n), |n: Node| t.accepts(n));
        assert((|n: Node| t.step(n)) =~= (|n: Node|
            fewer_args(n, crate::program::index_views(gone@))));
    }
    map_nodes(node, &t)
}

/// A function without the parameters that are removed, and without the arguments
/// for those of other functions.
pub open spec fn reduced(id: FunctionID, f: Func, gone: Seq<(FunctionID, Seq<usize>)>) -> Func {
    Func {
        signature: Signature {
            parameters: match crate::program::lookup(gone, id) {
                Some(d) => without(f.signature.parameters, d),
                None => f.signature.parameters,
            },
            ..f.signature
        },
        body: if f.is_native {
            f.body
        } else {
            f.body.map(|n: Node| fewer_args(n, gone))
        },
        ..f
    }
}

/// The program without the parameters that nothing uses.
pub open spec fn params_removed(p: Prog) -> Prog {
    let gone = removals(p, p.functions);
    Prog {
        functions: Seq::new(
            p.functions.len(),
            |i: int| (p.functions[i].0, reduced(p.functions[i].0, p.functions[i].1, gone)),
        ),
        ..p
    }
}

/// How many parameters the functions have together.
pub open spec fn param_count(fs: Seq<(FunctionID, Func)>) -> nat
    decreases fs.len(),
{
    if fs.len() == 0 {
        0
    } else {
        param_count(fs.drop_last()) + fs.last().1.signature.parameters.len()
    }
}

/// Leaving elements out makes a list no longer, and shorter where one is there.
proof fn lemma_without_shorter<T>(s: Seq<T>, gone: Seq<usize>)
    ensures
        without(s, gone).len() <= s.len(),
        (exists|i: int| 0 <= i < s.len() && gone.contains(#[trigger] (i as usize))) ==> without(
            s,
            gone,
        ).len() < s.len(),
    decreases s.len(),
{
    if s.len() > 0 {
        lemma_without_shorter(s.drop_last(), gone);
        if exists|i: int| 0 <= i < s.len() && gone.contains(#[trigger] (i as usize)) {
            let i = choose|i: int| 0 <= i < s.len() && gone.contains(#[trigger] (i as usize));
            if i < s.len() - 1 {
                assert(gone.contains(i as usize));
            }
        }
    }
}

/// The positions of the unused parameters are those of parameters.
proof fn lemma_unused_are_params(p: Prog, f: Func, k: nat)
    ensures
        unused_params(p, f, k).len() > 0 ==> exists|i: int|
            0 <= i < k && unused_params(p, f, k).contains(#[trigger] (i as usize)),
    decreases k,
{
    if k > 0 {
        let before = unused_params(p, f, (k - 1) as nat);
        let all = unused_params(p, f, k);
        lemma_unused_are_params(p, f, (k - 1) as nat);
        if keeps_param(p, f, k - 1) {
            if all.len() > 0 {
                let i = choose|i: int|
                    0 <= i < k - 1 && before.contains(#[trigger] (i as usize));
                assert(all.contains(i as usize));
            }
        } else {
            let i: int = k - 1;
            assert(all.last() == i as usize);
            assert(all.contains(i as usize));
        }
    }
}

/// What is removed under an identifier is what a function with it does not use.
proof fn lemma_removals_unused(p: Prog, fs: Seq<(FunctionID, Func)>)
    ensures
        forall|k: int|
            0 <= k < removals(p, fs).len() ==> (#[trigger] removals(p, fs)[k]).1.len() > 0
                && exists|j: int|
                0 <= j < fs.len() && (#[trigger] fs[j]).0 == removals(p, fs)[k].0 && removals(
                    p,
                    fs,
                )[k].1 == unused_params(p, fs[j].1, fs[j].1.signature.parameters.len()),
    decreases fs.len(),
{
    if fs.len() > 0 {
        let before = removals(p, fs.drop_last());
        let all = removals(p, fs);
        lemma_removals_unused(p, fs.drop_last());
        assert forall|k: int| 0 <= k < all.len() implies (#[trigger] all[k]).1.len() > 0
            && exists|j: int|
            0 <= j < fs.len() && (#[trigger] fs[j]).0 == all[k].0 && all[k].1 == unused_params(
                p,
                fs[j].1,
                fs[j].1.signature.parameters.len(),
            ) by {
            if k < before.len() {
                assert(before[k] == all[k]);
                let j = choose|j: int|
                    0 <= j < fs.drop_last().len() && (#[trigger] fs.drop_last()[j]).0
                        == before[k].0 && before[k].1 == unused_params(
                        p,
                        fs.drop_last()[j].1,
                        fs.drop_last()[j].1.signature.parameters.len(),
                    );
                assert(fs[j] == fs.drop_last()[j]);
            } else {
                assert(fs[fs.len() - 1] == fs.last());
            }
        }
    }
}

/// Functions with no more parameters each, and with fewer in one of them, have fewer
/// together.
proof fn lemma_param_count(a: Seq<(FunctionID, Func)>, b: Seq<(FunctionID, Func)>)
    requires
        a.len() == b.len(),
        forall|i: int|
            0 <= i < a.len() ==> (#[trigger] a[i]).1.signature.parameters.len()
                <= b[i].1.signature.parameters.len(),
    ensures
        param_count(a) <= param_count(b),
        (exists|i: int|
            0 <= i < a.len() && (#[trigger] a[i]).1.signature.parameters.len()
                < b[i].1.signature.parameters.len()) ==> param_count(a) < param_count(b),
    decreases a.len(),
{
    if a.len() > 0 {
        let (x, y) = (a.drop_last(), b.drop_last());
        assert forall|i: int| 0 <= i < x.len() implies (
        #[trigger] x[i]).1.signature.parameters.len() <= y[i].1.signature.parameters.len() by {
            assert(x[i] == a[i] && y[i] == b[i]);
        }
        lemma_param_count(x, y);
        assert(a[a.len() - 1] == a.last());
        if exists|i: int|
            0 <= i < a.len() && (#[trigger] a[i]).1.signature.parameters.len()
                < b[i].1.signature.parameters.len() {
            let i = choose|i: int|
                0 <= i < a.len() && (#[trigger] a[i]).1.signature.parameters.len()
                    < b[i].1.signature.parameters.len();
            if i < x.len() {
                assert(x[i].1.signature.parameters.len() < y[i].1.signature.parameters.len());
            }
        }
    }
}

/// A round that removes something leaves fewer parameters.
pub proof fn lemma_round_removes(p: Prog)
    requires
        removals(p, p.functions).len() > 0,
    ensures
        param_count(params_removed(p).functions) < param_count(p.functions),
{
    let gone = removals(p, p.functions);
    let q = params_removed(p).functions;
    assert forall|i: int| 0 <= i < q.len() implies (#[trigger] q[i]).1.signature.parameters.len()
        <= p.functions[i].1.signature.parameters.len() by {
        if let Some(d) = crate::program::lookup(gone, p.functions[i].0) {
            lemma_without_shorter(p.functions[i].1.signature.parameters, d);
        }
    }
    let id = gone[0].0;
    assert(crate::program::is_slot(gone, id, 0));
    crate::program::lemma_slot(gone, id, 0);
    lemma_removals_unused(p, p.functions);
    let d = gone[0].1;
    let j = choose|j: int|
        0 <= j < p.functions.len() && (#[trigger] p.functions[j]).0 == id && d == unused_params(
            p,
            p.functions[j].1,
            p.functions[j].1.signature.parameters.len(),
        );
    let ps = p.functions[j].1.signature.parameters;
    lemma_unused_are_params(p, p.functions[j].1, ps.len());
    lemma_without_shorter(ps, d);
    assert(q[j].1.signature.parameters.len() < ps.len());
    lemma_param_count(q, p.functions);
}

/// The program without the parameters that nothing uses, once those are removed too
/// that nothing uses any more.
pub open spec fn all_removed(p: Prog) -> Prog
    decreases param_count(p.functions),
{
    if removals(p, p.functions).len() == 0 {
        p
    } else {
        proof {
            lemma_round_removes(p);
        }
        all_removed(params_removed(p))
    }
}

/// The parameters without those at some positions.
fn keep_params(ps: &Vec<Parameter>, gone: &Vec<usize>) -> (r: Vec<Parameter>)
    ensures
        Parameter::views(r@) == without(Parameter::views(ps@), gone@),
{
    let ghost all = Parameter::views(ps@);
    let mut out: Vec<Parameter> = Vec::new();
    let mut i: usize = 0;
    assert(all.subrange(0, 0) =~= Seq::empty());
    assert(Parameter::views(out@) =~= Seq::empty());
    while i < ps.len()
        invariant
            i <= ps.len(),
            all == Parameter::views(ps@),
            Parameter::views(out@) == without(all.subrange(0, i as int), gone@),
        decreases ps.len() - i,
    {
        let ghost next = all.subrange(0, i + 1);
        assert(next.drop_last() =~= all.subrange(0, i as int));
        assert(next.last() == ps@[i as int]@);
        if !contains_id(gone, i) {
            let ghost before = Parameter::views(out@);
            out.push(ps[i].clone());
            assert(Parameter::views(out@) =~= before.push(ps@[i as int]@));
        }
        i += 1;
    }
    assert(all.subrange(0, i as int) =~= all);
    out
}

/// Makes one round; says whether anything was removed.
fn eliminate_dead_params_once(program: &mut Program) -> (r: bool)
    ensures
        r == (removals(old(program)@, old(program)@.functions).len() > 0),
        final(program)@ == if r {
            params_removed(old(program)@)
        } else {
            old(program)@
        },
{
    let ghost start = program@;
    let gone = find_removals(program);
    let ghost g = crate::program::index_views(gone@);
    assert(g.len() == gone@.len());
    if gone.len() == 0 {
        return false;
    }
    let ghost goal = params_removed(start).functions;
    let mut i: usize = 0;
    while i < program.functions.len()
        invariant
            i <= program.functions.len(),
            g == crate::program::index_views(gone@),
            g == removals(start, start.functions),
            goal == params_removed(start).functions,
            program.functions@.len() == start.functions.len(),
            goal.len() == start.functions.len(),
            program@ == (Prog { functions: program@.functions, ..start }),
            forall|j: int| 0 <= j < i ==> #[trigger] program@.functions[j] == goal[j],
            forall|j: int|
                i <= j < start.functions.len() ==> #[trigger] program@.functions[j]
                    == start.functions[j],
        decreases program.functions.len() - i,
    {
        let ghost before = program@;
        let ghost olds = program.functions@;
        assert(before.functions[i as int] == (olds[i as int].0, olds[i as int].1@));
        let id = program.functions[i].0;
        if !program.functions[i].1.is_native {
            let body = remove_dead_args(&program.functions[i].1.body, &gone);
            program.functions[i].1.body = body;
        }
        proof {
            crate::program::lemma_same_slots(gone@, g, id);
        }
        if let Some(k) = slot_of(&gone, id) {
            let kept = keep_params(&program.functions[i].1.signature.parameters, &gone[k].1);
            program.functions[i].1.signature.parameters = kept;
        }
        assert(program.functions@[i as int].1@ =~= reduced(id, start.functions[i as int].1, g));
        assert(program@.functions =~= before.functions.update(i as int, goal[i as int]));
        i += 1;
    }
    assert(program@.functions =~= goal);
    true
}

/// Removes the parameters that nothing uses, with the arguments for them, until none is
/// left.
pub fn eliminate_dead_params(program: &mut Program)
    ensures
        final(program)@ == all_removed(old(program)@),
{
    let ghost goal = all_removed(program@);
    let mut more = true;
    while more
        invariant
            all_removed(program@) == goal,
            !more ==> removals(program@, program@.functions).len() == 0,
        decreases param_count(program@.functions), if more { 1int } else { 0 },
    {
        proof {
            if removals(program@, program@.functions).len() > 0 {
                lemma_round_removes(program@);
            }
        }
        more = eliminate_dead_params_once(program);
    }
}

/// No parameter that nothing uses is left.
pub proof fn law_no_unused_parameter_is_left(p: Prog)
    ensures
        removals(all_removed(p), all_removed(p).functions).len() == 0,
        all_removed(all_removed(p)) == all_removed(p),
    decreases param_count(p.functions),
{
    if removals(p, p.functions).len() > 0 {
        lemma_round_removes(p);
        law_no_unused_parameter_is_left(params_removed(p));
    }
}

/// How many elements are left depends on how many there were.
proof fn lemma_without_len<A, B>(a: Seq<A>, b: Seq<B>, gone: Seq<usize>)
    requires
        a.len() == b.len(),
    ensures
        without(a, gone).len() == without(b, gone).len(),
    decreases a.len(),
{
    if a.len() > 0 {
        lemma_without_len(a.drop_last(), b.drop_last(), gone);
    }
}

/// A call with as many arguments as its callee has parameters still has as many
/// once parameters are removed.
pub proof fn law_arguments_follow_parameters(
    p: Prog,
    f: FunctionID,
    types: Seq<crate::types::Ty>,
    args: Seq<Node>,
)
    requires
        p.has(f),
        args.len() == p.func(f).signature.parameters.len(),
    ensures
        fewer_args(
            Node::Call { function: f, type_args: types, args },
            removals(p, p.functions),
        ).kids().len() == params_removed(p).func(f).signature.parameters.len(),
{
    let gone = removals(p, p.functions);
    let q = params_removed(p);
    crate::program::lemma_same_slots(p.functions, q.functions, f);
    match crate::program::lookup(gone, f) {
        Some(d) => {
            lemma_without_len(args, p.func(f).signature.parameters, d);
        },
        None => {},
    }
}

/// The functions of a mutually recursive group lose the same parameters.
pub proof fn law_group_loses_the_same(p: Prog, f: Func, g: Func, k: nat)
    requires
        f.mutual_group_id is Some,
        f.mutual_group_id == g.mutual_group_id,
    ensures
        unused_params(p, f, k) == unused_params(p, g, k),
    decreases k,
{
    if k > 0 {
        law_group_loses_the_same(p, f, g, (k - 1) as nat);
    }
}

/// Whether the expression is a call of a function of the program with more or fewer
/// arguments than the function has parameters.
pub open spec fn is_miscall(n: Node, p: Prog) -> bool {
    n matches Node::Call { function, args, .. } && p.has(function) && args.len() != p.func(
        function,
    ).signature.parameters.len()
}

/// Whether every call in the bodies of the functions that are not native has as many
/// arguments as its callee has parameters.
pub open spec fn calls_fit(p: Prog) -> bool {
    forall|i: int|
        0 <= i < p.functions.len() && !(#[trigger] p.functions[i]).1.is_native
            ==> !p.functions[i].1.body.any(|n: Node| is_miscall(n, p))
}

/// What is left of a list stood in it.
proof fn lemma_without_from<T>(s: Seq<T>, gone: Seq<usize>)
    ensures
        forall|i: int|
            0 <= i < without(s, gone).len() ==> s.contains(#[trigger] without(s, gone)[i]),
    decreases s.len(),
{
    if s.len() > 0 {
        lemma_without_from(s.drop_last(), gone);
        assert forall|i: int| 0 <= i < without(s, gone).len() implies s.contains(
            #[trigger] without(s, gone)[i],
        ) by {
            let before = without(s.drop_last(), gone);
            if i < before.len() {
                assert(s.drop_last().contains(before[i]));
                let j = choose|j: int| 0 <= j < s.len() - 1 && s.drop_last()[j] == before[i];
                assert(s[j] == before[i]);
            } else {
                assert(s[s.len() - 1] == s.last());
            }
        }
    }
}

/// Removing arguments with the parameters leaves every call fitting.
proof fn lemma_calls_still_fit(p: Prog, n: Node)
    requires
        !n.any(|m: Node| is_miscall(m, p)),
    ensures
        !n.map(|m: Node| fewer_args(m, removals(p, p.functions))).any(
            |m: Node| is_miscall(m, params_removed(p)),
        ),
    decreases n,
{
    let gone = removals(p, p.functions);
    let q = params_removed(p);
    let f = |m: Node| fewer_args(m, gone);
    let bad = |m: Node| is_miscall(m, p);
    let worse = |m: Node| is_miscall(m, q);
    n.lemma_kids_decrease();
    let ks = n.mapped_kids(f);
    assert forall|i: int| 0 <= i < ks.len() implies !(#[trigger] ks[i]).any(worse) by {
        assert(!n.kids()[i].any(bad));
        lemma_calls_still_fit(p, n.kids()[i]);
    }
    n.lemma_with_kids(ks);
    let m = n.with_kids(ks);
    let r = f(m);
    assert forall|i: int| 0 <= i < r.kids().len() implies !(#[trigger] r.kids()[i]).any(worse) by {
        if let Node::Call { function, args, .. } = m {
            assert(m.kids() =~= args);
            if let Some(d) = crate::program::lookup(gone, function) {
                lemma_without_from(args, d);
                assert(r.kids() =~= without(args, d));
                assert(args.contains(without(args, d)[i]));
                let j = choose|j: int| 0 <= j < args.len() && args[j] == without(args, d)[i];
                assert(!ks[j].any(worse));
            } else {
                assert(!ks[i].any(worse));
            }
        } else {
            assert(!ks[i].any(worse));
        }
    }
    assert(!worse(r)) by {
        if let Node::Call { function, type_args, args } = m {
            crate::program::lemma_same_slots(p.functions, q.functions, function);
            assert(m.kids() =~= args);
            assert(!bad(n));
            if p.has(function) {
                law_arguments_follow_parameters(p, function, type_args, args);
            }
            assert(r.kids() =~= r->Call_args);
        }
    }
}

/// Where every call fits its callee, every call still does once parameters are removed,
/// however many rounds it takes.
pub proof fn law_calls_still_fit(p: Prog)
    requires
        calls_fit(p),
    ensures
        calls_fit(all_removed(p)),
    decreases param_count(p.functions),
{
    if removals(p, p.functions).len() > 0 {
        let q = params_removed(p);
        assert forall|i: int|
            0 <= i < q.functions.len() && !(#[trigger] q.functions[i]).1.is_native implies !(
        q.functions[i].1.body.any(|n: Node| is_miscall(n, q))) by {
            assert(!p.functions[i].1.is_native);
            lemma_calls_still_fit(p, p.functions[i].1.body);
        }
        lemma_round_removes(p);
        law_calls_still_fit(q);
    }
}

/// A parameter goes exactly where neither its function nor, in a mutually recursive
/// group, any function of the group whose parameters may be removed uses it.
pub proof fn law_only_unused_parameters_go(p: Prog, f: Func, count: nat, k: usize)
    requires
        count <= usize::MAX,
    ensures
        unused_params(p, f, count).contains(k) <==> k < count && match f.mutual_group_id {
            Some(g) => forall|i: int|
                0 <= i < p.functions.len() && (#[trigger] p.functions[i]).1.mutual_group_id
                    == Some(g) && is_reducible(p.functions[i].1) ==> !uses_param(
                    p,
                    p.functions[i].1,
                    k as int,
                ),
            None => !uses_param(p, f, k as int),
        },
    decreases count,
{
    if count > 0 {
        let before = unused_params(p, f, (count - 1) as nat);
        let all = unused_params(p, f, count);
        law_only_unused_parameters_go(p, f, (count - 1) as nat, k);
        if before.contains(k) {
            let j = choose|j: int| 0 <= j < before.len() && before[j] == k;
            assert(all[j] == k);
        }
        if !keeps_param(p, f, count - 1) {
            assert(all.last() == count - 1);
            if all.contains(k) && !before.contains(k) {
                let j = choose|j: int| 0 <= j < all.len() && all[j] == k;
                if j < before.len() {
                    assert(before[j] == k);
                }
            }
        }
    }
}

/// The positions of the parameters that the `i`th function loses in a round.
pub open spec fn lost_params(p: Prog, i: int) -> Seq<usize> {
    let f = p.functions[i].1;
    if is_reducible(f) {
        unused_params(p, f, f.signature.parameters.len())
    } else {
        Seq::empty()
    }
}

/// What is removed of a function is what it loses.
proof fn lemma_removals_at(p: Prog, fs: Seq<(FunctionID, Func)>, i: int)
    requires
        0 <= i < fs.len(),
        crate::dependency_order::numbers(fs).no_duplicates(),
    ensures
        crate::program::lookup(removals(p, fs), fs[i].0) == ({
            let f = fs[i].1;
            let gone = unused_params(p, f, f.signature.parameters.len());
            if is_reducible(f) && gone.len() > 0 {
                Some(gone)
            } else {
                None
            }
        }),
    decreases fs.len(),
{
    let front = fs.drop_last();
    let before = removals(p, front);
    let all = removals(p, fs);
    let ns = crate::dependency_order::numbers(fs);
    let id = fs[i].0;
    assert(crate::dependency_order::numbers(front) =~= ns.drop_last());
    if i < front.len() {
        assert(front[i] == fs[i]);
        lemma_removals_at(p, front, i);
        assert(ns[i] != ns[fs.len() - 1]);
        if all != before {
            crate::program::lemma_lookup_push(before, all.last(), id);
            assert(all =~= before.push(all.last()));
        }
    } else {
        lemma_removals_unused(p, front);
        assert forall|k: int| 0 <= k < before.len() implies (#[trigger] before[k]).0 != id by {
            let j = choose|j: int|
                0 <= j < front.len() && (#[trigger] front[j]).0 == before[k].0 && before[k].1
                    == unused_params(p, front[j].1, front[j].1.signature.parameters.len());
            assert(front[j] == fs[j]);
            assert(ns[j] != ns[i]);
        }
        if all != before {
            assert forall|k: int| 0 <= k < before.len() implies (#[trigger] all[k]).0 != id by {
                assert(all[k] == before[k]);
            }
            assert(crate::program::is_slot(all, id, before.len() as int));
            crate::program::lemma_slot(all, id, before.len() as int);
        } else if crate::program::slot(all, id) is Some {
            let k = crate::program::slot(all, id)->0;
            assert(crate::program::is_slot(all, id, k));
            assert(before[k].0 != id);
        }
    }
}

/// Leaving out nothing leaves a list as it is; what is left is part of the list.
proof fn lemma_without_is_part<T>(s: Seq<T>, gone: Seq<usize>)
    ensures
        crate::program::is_part(without(s, gone), s),
        gone.len() == 0 ==> without(s, gone) == s,
    decreases s.len(),
{
    if s.len() > 0 {
        let before = without(s.drop_last(), gone);
        lemma_without_is_part(s.drop_last(), gone);
        assert(before.push(s.last()).drop_last() =~= before);
        if gone.len() == 0 {
            assert(s.drop_last().push(s.last()) =~= s);
        }
    }
}

/// Whether a function of a program is that of another without some parameters and
/// arguments: the parameters that are left are some of those that it had, in order; it
/// has them all where its parameters may not be removed; and the rest of it stays.
pub open spec fn is_reduction(p: Prog, q: Prog, i: int) -> bool {
    let (id, f) = p.functions[i];
    let g = q.functions[i].1;
    &&& q.functions[i].0 == id
    &&& crate::program::is_part(g.signature.parameters, f.signature.parameters)
    &&& !is_reducible(f) ==> g.signature.parameters == f.signature.parameters
    &&& g == (Func {
        signature: Signature { parameters: g.signature.parameters, ..f.signature },
        body: g.body,
        ..f
    })
    &&& f.is_native ==> g.body == f.body
}

/// What a round does to a function.
proof fn lemma_round_at(p: Prog, i: int)
    requires
        0 <= i < p.functions.len(),
        crate::dependency_order::numbers(p.functions).no_duplicates(),
    ensures
        is_reduction(p, params_removed(p), i),
        params_removed(p).functions[i].1.signature.parameters == without(
            p.functions[i].1.signature.parameters,
            lost_params(p, i),
        ),
        crate::dependency_order::numbers(params_removed(p).functions)
            == crate::dependency_order::numbers(p.functions),
{
    let q = params_removed(p);
    lemma_removals_at(p, p.functions, i);
    lemma_without_is_part(p.functions[i].1.signature.parameters, lost_params(p, i));
    lemma_without_is_part(p.functions[i].1.signature.parameters, Seq::<usize>::empty());
    assert(crate::dependency_order::numbers(q.functions) =~= crate::dependency_order::numbers(
        p.functions,
    ));
}

/// A list is part of itself.
proof fn lemma_part_of_itself<T>(s: Seq<T>)
    ensures
        crate::program::is_part(s, s),
    decreases s.len(),
{
    if s.len() > 0 {
        lemma_part_of_itself(s.drop_last());
    }
}

/// Once all parameters that nothing uses are removed, the parameters of each function are
/// some of those that it had, in order. Native functions, specifications and abort
/// predicates have all of theirs. Nothing else changes but the bodies of functions that
/// are not native.
pub proof fn law_left_parameters_are_a_part(p: Prog, i: int)
    requires
        0 <= i < p.functions.len(),
        crate::dependency_order::numbers(p.functions).no_duplicates(),
    ensures
        is_reduction(p, all_removed(p), i),
        all_removed(p).functions.len() == p.functions.len(),
        all_removed(p) == (Prog { functions: all_removed(p).functions, ..p }),
    decreases param_count(p.functions),
{
    if removals(p, p.functions).len() == 0 {
        lemma_part_of_itself(p.functions[i].1.signature.parameters);
    } else {
        let q = params_removed(p);
        let r = all_removed(p);
        lemma_round_removes(p);
        lemma_round_at(p, i);
        law_left_parameters_are_a_part(q, i);
        crate::program::lemma_part_of_part(
            r.functions[i].1.signature.parameters,
            q.functions[i].1.signature.parameters,
            p.functions[i].1.signature.parameters,
        );
    }
}

/// The program after some rounds.
pub open spec fn after_rounds(p: Prog, r: nat) -> Prog
    decreases r,
{
    if r == 0 {
        p
    } else {
        params_removed(after_rounds(p, (r - 1) as nat))
    }
}

/// The number of rounds that remove something.
pub open spec fn round_count(p: Prog) -> nat
    decreases param_count(p.functions),
{
    if removals(p, p.functions).len() == 0 {
        0
    } else {
        proof {
            lemma_round_removes(p);
        }
        1 + round_count(params_removed(p))
    }
}

/// One round, and some more.
proof fn lemma_rounds_behind(p: Prog, r: nat)
    ensures
        after_rounds(params_removed(p), r) == after_rounds(p, r + 1),
    decreases r,
{
    if r > 0 {
        lemma_rounds_behind(p, (r - 1) as nat);
    } else {
        reveal_with_fuel(after_rounds, 2);
    }
}

/// All is removed after as many rounds as remove something.
proof fn lemma_all_rounds(p: Prog)
    ensures
        all_removed(p) == after_rounds(p, round_count(p)),
    decreases param_count(p.functions),
{
    if removals(p, p.functions).len() > 0 {
        lemma_round_removes(p);
        lemma_all_rounds(params_removed(p));
        lemma_rounds_behind(p, round_count(params_removed(p)));
    }
}

/// The functions keep their numbers through the rounds.
proof fn lemma_rounds_keep_numbers(p: Prog, r: nat)
    ensures
        crate::dependency_order::numbers(after_rounds(p, r).functions)
            == crate::dependency_order::numbers(p.functions),
        after_rounds(p, r).functions.len() == p.functions.len(),
    decreases r,
{
    if r > 0 {
        lemma_rounds_keep_numbers(p, (r - 1) as nat);
        let q = after_rounds(p, (r - 1) as nat);
        assert(crate::dependency_order::numbers(params_removed(q).functions)
            =~= crate::dependency_order::numbers(q.functions));
    }
}

/// Whether, in a program, neither a function nor, in a mutually recursive group, any
/// function of the group whose parameters may be removed uses its `k`th parameter.
pub open spec fn no_one_uses(p: Prog, f: Func, k: int) -> bool {
    match f.mutual_group_id {
        Some(g) => forall|j: int|
            0 <= j < p.functions.len() && (#[trigger] p.functions[j]).1.mutual_group_id == Some(g)
                && is_reducible(p.functions[j].1) ==> !uses_param(p, p.functions[j].1, k),
        None => !uses_param(p, f, k),
    }
}

/// The whole pass is a number of rounds, and in each of them a function whose parameters
/// may be removed loses exactly those that no one uses at that point; others lose none.
pub proof fn law_parameters_go_where_no_one_uses_them(p: Prog, r: nat, i: int, k: usize)
    requires
        crate::dependency_order::numbers(p.functions).no_duplicates(),
        0 <= i < p.functions.len(),
        p.functions[i].1.signature.parameters.len() <= usize::MAX,
    ensures
        all_removed(p) == after_rounds(p, round_count(p)),
        ({
            let q = after_rounds(p, r);
            let f = q.functions[i].1;
            &&& after_rounds(p, r + 1).functions[i].1.signature.parameters == without(
                f.signature.parameters,
                lost_params(q, i),
            )
            &&& lost_params(q, i).contains(k) <==> is_reducible(f) && k
                < f.signature.parameters.len() && no_one_uses(q, f, k as int)
        }),
{
    let q = after_rounds(p, r);
    let f = q.functions[i].1;
    lemma_all_rounds(p);
    lemma_rounds_keep_numbers(p, r);
    lemma_round_at(q, i);
    lemma_rounds_shorten(p, r, i);
    law_only_unused_parameters_go(q, f, f.signature.parameters.len(), k);
}

/// No function has more parameters after some rounds.
proof fn lemma_rounds_shorten(p: Prog, r: nat, i: int)
    requires
        crate::dependency_order::numbers(p.functions).no_duplicates(),
        0 <= i < p.functions.len(),
    ensures
        after_rounds(p, r).functions[i].1.signature.parameters.len()
            <= p.functions[i].1.signature.parameters.len(),
    decreases r,
{
    if r > 0 {
        let q = after_rounds(p, (r - 1) as nat);
        lemma_rounds_keep_numbers(p, (r - 1) as nat);
        lemma_rounds_shorten(p, (r - 1) as nat, i);
        lemma_round_at(q, i);
        lemma_without_shorter(q.functions[i].1.signature.parameters, lost_params(q, i));
    }
}

} // verus!
