//! Hoisting of loop bodies: what a recursive loop helper computes before it calls
//! itself moves into a helper of its own, which is not recursive.

use crate::ir::{clone_names, IRNode, Node};
use crate::parts::spend;
use crate::program::{
    slot_of, Func, Function, FunctionSignature, Param, Parameter, Prog, Program, ProofParam,
    Signature,
};
use crate::scope::{VariableRegistry, Vars};
use crate::segments::next_id;
use crate::shadowing::rebuild_let_chain;
use crate::sorting::insert_name;
use crate::text::{append, is_digits, split_at_last};
use crate::traverse::{calls_function, contains_name, free_vars};
use crate::types::{FunctionID, Name, TempId, Ty, Type};
use vstd::prelude::*;

verus! {

/// Whether the loop helpers of a function are recorded as loops with an invariant.
pub open spec fn has_invariant(p: Prog, base: Name) -> bool {
    exists|i: int| 0 <= i < p.loop_invariants.len() && (#[trigger] p.loop_invariants[i]).0 == base
}

/// Whether a function is a loop helper whose body may be hoisted: a recursive
/// function with a body whose name is that of another followed by `.while_` and a
/// number, of which nothing is declared about its termination.
pub open spec fn is_extractable(p: Prog, f: Func) -> bool {
    let base = crate::text::before_last(f.name, ".while_"@);
    let number = crate::text::behind_last(f.name, ".while_"@);
    !f.is_native && !f.is_uninterpreted && f.mutual_group_id is Some && crate::text::occurs(
        f.name,
        ".while_"@,
    ) && number.len() > 0 && crate::text::all_digits(number) && !has_invariant(p, base)
        && !p.decls.termination.contains(f.name) && !p.decls.loop_hyp.contains(base)
        && !p.decls.precond.contains(base)
}

/// Whether the loop helpers of a function are recorded as loops with an invariant.
fn is_invariant_known(program: &Program, base: &String) -> (r: bool)
    ensures
        r == has_invariant(program@, base@),
{
    let ghost p = program@;
    let mut i: usize = 0;
    while i < program.loop_invariants.len()
        invariant
            i <= program.loop_invariants.len(),
            p == program@,
            forall|j: int| 0 <= j < i ==> (#[trigger] p.loop_invariants[j]).0 != base@,
        decreases program.loop_invariants.len() - i,
    {
        assert(p.loop_invariants[i as int].0 == program.loop_invariants@[i as int].0@);
        if program.loop_invariants[i].0 == *base {
            return true;
        }
        i += 1;
    }
    false
}

/// Whether a function is a loop helper whose body may be hoisted.
fn is_extractable_loop(program: &Program, f: &Function) -> (r: bool)
    ensures
        r == is_extractable(program@, f@),
{
    if f.is_native || f.is_uninterpreted || f.mutual_group_id.is_none() {
        return false;
    }
    proof {
        reveal_strlit(".while_");
    }
    match split_at_last(f.name.as_str(), ".while_") {
        Some((base, number)) => {
            proof {
                crate::text::lemma_split_last(f.name@, ".while_"@, base@, number@);
            }
            number.as_str().unicode_len() > 0 && is_digits(number.as_str()) && !is_invariant_known(
                program,
                &base,
            ) && !contains_name(&program.lean_termination_decls.termination, &f.name)
                && !contains_name(&program.lean_termination_decls.loop_hyp, &base)
                && !contains_name(&program.lean_termination_decls.precond, &base)
        },
        None => false,
    }
}

/// A turn on the way from a body to a part of it.
#[derive(Clone, Copy, Debug, PartialEq, Eq, Structural)]
pub enum Branch {
    /// To what follows a binding.
    Let,
    /// To the branch of a conditional that is taken where it holds.
    Then,
    /// To the other branch.
    Else,
}

/// What a chain of bindings comes to.
#[derive(Clone, Copy, Debug, PartialEq, Eq, Structural)]
pub enum SpineClass {
    /// It reaches a call of the loop.
    Spine,
    /// It ends in a conditional with one branch that calls the loop.
    Descend,
    /// It calls the loop nowhere.
    Bail,
}

/// What a chain of bindings comes to.
pub open spec fn spine_class(n: Node, f: FunctionID) -> SpineClass
    decreases n,
{
    match n {
        Node::Let { value, body, .. } => if value.calls(f) {
            SpineClass::Spine
        } else {
            spine_class(*body, f)
        },
        Node::If { then_branch, else_branch, .. } => match (
            then_branch.calls(f),
            else_branch.calls(f),
        ) {
            (true, true) => SpineClass::Spine,
            (false, false) => SpineClass::Bail,
            _ => SpineClass::Descend,
        },
        _ => if n.calls(f) {
            SpineClass::Spine
        } else {
            SpineClass::Bail
        },
    }
}

/// What a chain of bindings comes to.
fn classify_spine(n: &IRNode, f: FunctionID) -> (r: SpineClass)
    ensures
        r == spine_class(n@, f),
    decreases n,
{
    match n {
        IRNode::Let { value, body, .. } => if calls_function(value, f) {
            SpineClass::Spine
        } else {
            classify_spine(body, f)
        },
        IRNode::If { then_branch, else_branch, .. } => match (
            calls_function(then_branch, f),
            calls_function(else_branch, f),
        ) {
            (true, true) => SpineClass::Spine,
            (false, false) => SpineClass::Bail,
            _ => SpineClass::Descend,
        },
        _ => if calls_function(n, f) {
            SpineClass::Spine
        } else {
            SpineClass::Bail
        },
    }
}

/// The scope behind a binding; none where the type of the value cannot be told.
pub open spec fn scope_behind(vars: Vars, pattern: Seq<Name>, value: Node, p: Prog) -> Option<Vars> {
    match crate::scope::type_of(value, vars, p) {
        Some(t) => Some(crate::scope::bound(vars, pattern, Some(t))),
        None => if pattern.len() == 0 {
            Some(vars)
        } else {
            None
        },
    }
}

/// The way to the chain of bindings that leads to the recursion, with the scope
/// there and the chain: through bindings and through conditionals with one branch
/// that calls the loop, past at least one conditional.
pub open spec fn found_spine(
    p: Prog,
    n: Node,
    f: FunctionID,
    vars: Vars,
    crossed: bool,
    path: Seq<Branch>,
) -> Option<(Seq<Branch>, Vars, Node)>
    decreases n,
{
    if crossed && spine_class(n, f) == SpineClass::Spine {
        Some((path, vars, n))
    } else if crossed && spine_class(n, f) == SpineClass::Bail {
        None
    } else {
        match n {
            Node::Let { pattern, value, body } => if value.calls(f) {
                None
            } else {
                match scope_behind(vars, pattern, *value, p) {
                    Some(next) => found_spine(p, *body, f, next, crossed, path.push(Branch::Let)),
                    None => None,
                }
            },
            Node::If { then_branch, else_branch, .. } => match (
                then_branch.calls(f),
                else_branch.calls(f),
            ) {
                (true, false) => found_spine(
                    p,
                    *then_branch,
                    f,
                    vars,
                    true,
                    path.push(Branch::Then),
                ),
                (false, true) => found_spine(
                    p,
                    *else_branch,
                    f,
                    vars,
                    true,
                    path.push(Branch::Else),
                ),
                _ => None,
            },
            _ => None,
        }
    }
}

/// The bindings before the recursion, behind those so far, and what follows them.
pub open spec fn split_spine(n: Node, f: FunctionID, acc: Seq<(Seq<Name>, Node)>) -> (
    Seq<(Seq<Name>, Node)>,
    Node,
)
    decreases n,
{
    match n {
        Node::Let { pattern, value, body } => if value.calls(f) {
            (acc, n)
        } else {
            split_spine(*body, f, acc.push((pattern, *value)))
        },
        _ => (acc, n),
    }
}

/// The scope behind the bindings; none where the type of a value cannot be told.
pub open spec fn scope_behind_all(vars: Vars, bs: Seq<(Seq<Name>, Node)>, p: Prog) -> Option<Vars>
    decreases bs.len(),
{
    if bs.len() == 0 {
        Some(vars)
    } else {
        match scope_behind_all(vars, bs.drop_last(), p) {
            Some(before) => scope_behind(before, bs.last().0, bs.last().1, p),
            None => None,
        }
    }
}

/// The variable that the expression itself assigns: the parent of a write-back, or
/// a variable that is written through.
pub open spec fn assigned_here(n: Node) -> Seq<Name> {
    match n {
        Node::WriteBack { parent, .. } => seq![parent],
        Node::WriteRef { reference, .. } => match *reference {
            Node::Var(x) => seq![x],
            _ => Seq::empty(),
        },
        _ => Seq::empty(),
    }
}

/// The variables that an expression assigns, an expression before its parts.
pub open spec fn assigned(n: Node) -> Seq<Name>
    decreases n, n.kids().len() + 1,
{
    assigned_here(n) + assigned_from(n, 0)
}

/// The variables that are assigned inside the direct subexpressions from the `k`th
/// on.
pub open spec fn assigned_from(n: Node, k: nat) -> Seq<Name>
    decreases n, n.kids().len() - k,
{
    if k >= n.kids().len() {
        Seq::empty()
    } else {
        proof {
            n.lemma_kids_decrease();
            assert(decreases_to!(n => n.kids()[k as int]));
        }
        assigned(n.kids()[k as int]) + assigned_from(n, k + 1)
    }
}

/// The variables that the bindings define: those they bind, and those their values
/// assign.
pub open spec fn defined_by(bs: Seq<(Seq<Name>, Node)>) -> Seq<Name>
    decreases bs.len(),
{
    if bs.len() == 0 {
        Seq::empty()
    } else {
        defined_by(bs.drop_last()) + bs.last().0 + assigned(bs.last().1)
    }
}

/// The names of a list that are wanted, each once, in the order of the list, behind
/// those so far.
pub open spec fn wanted(
    acc: Seq<Name>,
    xs: Seq<Name>,
    want: spec_fn(Name) -> bool,
) -> Seq<Name>
    decreases xs.len(),
{
    if xs.len() == 0 {
        acc
    } else {
        let before = wanted(acc, xs.drop_last(), want);
        if want(xs.last()) && !before.contains(xs.last()) {
            before.push(xs.last())
        } else {
            before
        }
    }
}

/// The variables that the rest needs of what the bindings define.
pub open spec fn live_out(bs: Seq<(Seq<Name>, Node)>, rest: Node) -> Seq<Name> {
    wanted(Seq::empty(), defined_by(bs), |x: Name| rest.free(x))
}

/// The free variables of an expression, in alphabetical order.
pub open spec fn sorted_free(n: Node) -> Seq<Name> {
    crate::sorting::ordered(|x: Name| n.free(x))
}

/// The variables from outside that the bindings read, in the order of the bindings.
pub open spec fn live_in(bs: Seq<(Seq<Name>, Node)>) -> Seq<Name>
    decreases bs.len(),
{
    if bs.len() == 0 {
        Seq::empty()
    } else {
        wanted(
            live_in(bs.drop_last()),
            sorted_free(bs.last().1),
            |x: Name| !defined_by(bs.drop_last()).contains(x),
        )
    }
}

/// The variables with their types; none where one is not in scope.
pub open spec fn typed_vars(xs: Seq<Name>, vars: Vars) -> Option<Vars>
    decreases xs.len(),
{
    if xs.len() == 0 {
        Some(Seq::empty())
    } else {
        match typed_vars(xs.drop_last(), vars) {
            Some(before) => match crate::scope::var_type(vars, xs.last()) {
                Some(t) => Some(before.push((xs.last(), t))),
                None => None,
            },
            None => None,
        }
    }
}

/// What is to be hoisted: where it stands, the bindings, the variables they read
/// and those they leave, with their types, and what follows.
#[verifier::ext_equal]
pub struct Hoist {
    pub path: Seq<Branch>,
    pub prefix: Seq<(Seq<Name>, Node)>,
    pub live_in: Vars,
    pub live_out: Vars,
    pub rest: Node,
}

/// How many subexpressions the values of bindings have together.
pub open spec fn values_size(bs: Seq<(Seq<Name>, Node)>) -> nat
    decreases bs.len(),
{
    if bs.len() == 0 {
        0
    } else {
        values_size(bs.drop_last()) + bs.last().1.size()
    }
}

/// Whether bindings are heavy enough to be worth a helper: their values have more
/// subexpressions than the call of the helper, which hands on what they read.
pub open spec fn is_heavy(bs: Seq<(Seq<Name>, Node)>) -> bool {
    values_size(bs) > 1 + live_in(bs).len()
}

/// What is to be hoisted out of a chain of bindings.
pub open spec fn hoist_from(
    p: Prog,
    f: FunctionID,
    path: Seq<Branch>,
    vars: Vars,
    n: Node,
) -> Option<Hoist> {
    let (prefix, rest) = split_spine(n, f, Seq::empty());
    if !rest.calls(f) || prefix.len() == 0 || !is_heavy(prefix) || live_out(prefix, rest).len()
        == 0 {
        None
    } else {
        match scope_behind_all(vars, prefix, p) {
            Some(after) => match typed_vars(live_in(prefix), vars) {
                Some(ins) => match typed_vars(live_out(prefix, rest), after) {
                    Some(outs) => Some(
                        Hoist { path, prefix, live_in: ins, live_out: outs, rest },
                    ),
                    None => None,
                },
                None => None,
            },
            None => None,
        }
    }
}

/// What is to be hoisted out of a loop.
pub open spec fn hoist_of(p: Prog, f: FunctionID) -> Option<Hoist> {
    let func = p.func(f);
    match found_spine(
        p,
        func.body,
        f,
        crate::scope::param_vars(func.signature.parameters),
        false,
        Seq::empty(),
    ) {
        Some((path, vars, n)) => hoist_from(p, f, path, vars, n),
        None => None,
    }
}

/// The names of variables.
pub open spec fn names_in(vars: Vars) -> Seq<Name> {
    Seq::new(vars.len(), |i: int| vars[i].0)
}

/// The types of variables.
pub open spec fn types_in(vars: Vars) -> Seq<Ty> {
    Seq::new(vars.len(), |i: int| vars[i].1)
}

/// Variables as expressions.
pub open spec fn as_vars(xs: Seq<Name>) -> Seq<Node> {
    Seq::new(xs.len(), |i: int| Node::Var(xs[i]))
}

/// The body with something else at the end of a way through it.
pub open spec fn spliced(n: Node, path: Seq<Branch>, with: Node) -> Node
    decreases path.len(),
{
    if path.len() == 0 {
        with
    } else {
        let rest = path.subrange(1, path.len() as int);
        match (path[0], n) {
            (Branch::Let, Node::Let { pattern, value, body }) => Node::Let {
                pattern,
                value,
                body: Box::new(spliced(*body, rest, with)),
            },
            (Branch::Then, Node::If { cond, then_branch, else_branch }) => Node::If {
                cond,
                then_branch: Box::new(spliced(*then_branch, rest, with)),
                else_branch,
            },
            (Branch::Else, Node::If { cond, then_branch, else_branch }) => Node::If {
                cond,
                then_branch,
                else_branch: Box::new(spliced(*else_branch, rest, with)),
            },
            _ => n,
        }
    }
}

/// The helper that a hoisted body becomes.
pub open spec fn step_helper(f: Func, h: Hoist) -> Func {
    let outs = names_in(h.live_out);
    Func {
        module_id: f.module_id,
        name: f.name + ".step"@,
        signature: Signature {
            type_params: f.signature.type_params,
            parameters: Seq::new(
                h.live_in.len(),
                |i: int|
                    Param {
                        name: h.live_in[i].0,
                        param_type: h.live_in[i].1,
                        ssa_value: h.live_in[i].0,
                    },
            ),
            proof_params: Seq::empty(),
            return_type: if h.live_out.len() == 1 {
                h.live_out[0].1
            } else {
                Ty::Tuple(types_in(h.live_out))
            },
        },
        body: crate::shadowing::chained(
            h.prefix,
            step_result(outs),
        ),
        theorem: None,
        is_native: false,
        mutual_group_id: None,
        is_uninterpreted: false,
    }
}

/// What stands in the loop in place of the hoisted body: a call of the helper, with
/// the loop's own type parameters.
pub open spec fn step_call(f: Func, h: Hoist, id: FunctionID) -> Node {
    Node::Let {
        pattern: names_in(h.live_out),
        value: Box::new(
            Node::Call {
                function: id,
                type_args: Seq::new(
                    f.signature.type_params.len(),
                    |i: int| Ty::TypeParameter((i as usize) as u16),
                ),
                args: as_vars(names_in(h.live_in)),
            },
        ),
        body: Box::new(h.rest),
    }
}

/// A list where a function has what another has.
pub open spec fn handed_on(
    s: Seq<(FunctionID, Seq<usize>)>,
    from: FunctionID,
    to: FunctionID,
) -> Seq<(FunctionID, Seq<usize>)> {
    match crate::program::lookup(s, from) {
        Some(v) => crate::program::stored(s, to, v),
        None => s,
    }
}

/// The program with a body hoisted out of a loop.
pub open spec fn hoisted(p: Prog, f: FunctionID, h: Hoist, id: FunctionID) -> Prog {
    let with_helper = Prog {
        functions: p.functions.push((id, step_helper(p.func(f), h))),
        fn_hascode_params: handed_on(p.fn_hascode_params, f, id),
        fn_bagu_params: handed_on(p.fn_bagu_params, f, id),
        ..p
    };
    with_helper.with_body(f, spliced(p.func(f).body, h.path, step_call(p.func(f), h, id)))
}

/// The program with the body hoisted out of a loop, where there is one to hoist and
/// a number for the helper.
pub open spec fn loop_hoisted(p: Prog, f: FunctionID) -> Prog {
    match (hoist_of(p, f), crate::segments::fresh_id(p)) {
        (Some(h), Some(id)) => if p.has(f) {
            hoisted(p, f, h, id)
        } else {
            p
        },
        _ => p,
    }
}

/// The loop helpers whose bodies may be hoisted.
pub open spec fn loops_of(p: Prog, fs: Seq<(FunctionID, Func)>) -> Seq<FunctionID>
    decreases fs.len(),
{
    if fs.len() == 0 {
        Seq::empty()
    } else {
        let before = loops_of(p, fs.drop_last());
        if is_extractable(p, fs.last().1) {
            before.push(fs.last().0)
        } else {
            before
        }
    }
}

/// The program with the bodies hoisted out of some loops, one after the other.
pub open spec fn all_hoisted(p: Prog, ids: Seq<FunctionID>) -> Prog
    decreases ids.len(),
{
    if ids.len() == 0 {
        p
    } else {
        loop_hoisted(all_hoisted(p, ids.drop_last()), ids.last())
    }
}

/// The program with the bodies hoisted out of its loops.
pub open spec fn bodies_hoisted(p: Prog) -> Prog {
    all_hoisted(p, loops_of(p, p.functions))
}

/// The scope behind a binding, with the program it belongs to.
fn step_scope(reg: &mut VariableRegistry, pattern: &Vec<TempId>, value: &IRNode) -> (r: bool)
    ensures
        match scope_behind(old(reg)@, crate::ir::names(pattern@), value@, old(reg).program@) {
            Some(next) => r && final(reg)@ == next,
            None => !r,
        },
        *final(reg).program == *old(reg).program,
{
    assert(crate::ir::names(pattern@).len() == pattern@.len());
    match value.get_type(reg) {
        Some(t) => {
            reg.register_pattern(pattern, Some(t));
            true
        },
        None => pattern.len() == 0,
    }
}

/// The way to the chain of bindings that leads to the recursion; the scope is left
/// as it is there.
fn find_spine<'b>(
    n: &'b IRNode,
    f: FunctionID,
    reg: &mut VariableRegistry,
    crossed: bool,
    path: Vec<Branch>,
) -> (r: Option<(Vec<Branch>, &'b IRNode)>)
    ensures
        match r {
            Some((way, m)) => found_spine(
                old(reg).program@,
                n@,
                f,
                old(reg)@,
                crossed,
                path@,
            ) == Some((way@, final(reg)@, m@)),
            None => found_spine(
                old(reg).program@,
                n@,
                f,
                old(reg)@,
                crossed,
                path@,
            ) is None,
        },
        *final(reg).program == *old(reg).program,
    decreases n,
{
    let mut path = path;
    if crossed {
        match classify_spine(n, f) {
            SpineClass::Spine => {
                return Some((path, n));
            },
            SpineClass::Bail => {
                return None;
            },
            SpineClass::Descend => {},
        }
    }
    match n {
        IRNode::Let { pattern, value, body } => {
            if calls_function(value, f) {
                return None;
            }
            if !step_scope(reg, pattern, value) {
                return None;
            }
            path.push(Branch::Let);
            find_spine(body, f, reg, crossed, path)
        },
        IRNode::If { then_branch, else_branch, .. } => {
            match (calls_function(then_branch, f), calls_function(else_branch, f)) {
                (true, false) => {
                    path.push(Branch::Then);
                    find_spine(then_branch, f, reg, true, path)
                },
                (false, true) => {
                    path.push(Branch::Else);
                    find_spine(else_branch, f, reg, true, path)
                },
                _ => None,
            }
        },
        _ => None,
    }
}

/// The bindings before the recursion, and what follows them.
fn cut_spine(
    n: &IRNode,
    f: FunctionID,
    acc: Vec<(Vec<TempId>, IRNode)>,
) -> (r: (Vec<(Vec<TempId>, IRNode)>, IRNode))
    ensures
        (crate::shadowing::binding_views(r.0@), r.1@) == split_spine(
            n@,
            f,
            crate::shadowing::binding_views(acc@),
        ),
    decreases n,
{
    match n {
        IRNode::Let { pattern, value, body } => if calls_function(value, f) {
            (acc, n.clone())
        } else {
            let ghost before = crate::shadowing::binding_views(acc@);
            let mut acc = acc;
            acc.push((clone_names(pattern), (**value).clone()));
            assert(crate::shadowing::binding_views(acc@) =~= before.push(
                (crate::ir::names(pattern@), (*value)@),
            ));
            cut_spine(body, f, acc)
        },
        _ => (acc, n.clone()),
    }
}

/// Adds the variables that the expression assigns.
fn collect_effect_defines(n: &IRNode, out: &mut Vec<TempId>)
    ensures
        crate::ir::names(final(out)@) == crate::ir::names(old(out)@) + assigned(n@),
    decreases n@,
{
    let ghost start = crate::ir::names(out@);
    match n {
        IRNode::WriteBack { parent, .. } => {
            out.push(parent.clone());
            assert(crate::ir::names(out@) =~= start + seq![parent@]);
        },
        IRNode::WriteRef { reference, .. } => match &**reference {
            IRNode::Var(x) => {
                assert((*reference)@ == Node::Var(x@));
                out.push(x.clone());
                assert(crate::ir::names(out@) =~= start + seq![x@]);
            },
            _ => {},
        },
        _ => {},
    }
    assert(crate::ir::names(out@) =~= start + assigned_here(n@));
    let ks = n.children();
    let mut i: usize = 0;
    proof {
        n@.lemma_kids_decrease();
    }
    while i < ks.len()
        invariant
            i <= ks.len(),
            ks@.len() == n@.kids().len(),
            forall|j: int| 0 <= j < ks@.len() ==> (#[trigger] ks@[j])@ == n@.kids()[j],
            crate::ir::names(out@) + assigned_from(n@, i as nat) == start + assigned(n@),
            forall|j: int| 0 <= j < n@.kids().len() ==> decreases_to!(
                n@ => #[trigger] n@.kids()[j]
            ),
        decreases ks.len() - i,
    {
        assert(ks@[i as int]@ == n@.kids()[i as int]);
        let ghost before = crate::ir::names(out@);
        collect_effect_defines(ks[i], out);
        assert(crate::ir::names(out@) + assigned_from(n@, (i + 1) as nat) =~= before
            + assigned_from(n@, i as nat));
        i += 1;
    }
    assert(crate::ir::names(out@) + Seq::<Name>::empty() =~= crate::ir::names(out@));
}

/// Adds the variables that a binding defines.
fn add_defined(pattern: &Vec<TempId>, value: &IRNode, out: &mut Vec<TempId>)
    ensures
        crate::ir::names(final(out)@) == crate::ir::names(old(out)@) + crate::ir::names(pattern@)
            + assigned(value@),
{
    let ghost start = crate::ir::names(out@);
    let ghost ps = crate::ir::names(pattern@);
    let mut i: usize = 0;
    assert(start + ps.subrange(0, 0) =~= start);
    while i < pattern.len()
        invariant
            i <= pattern.len(),
            ps == crate::ir::names(pattern@),
            crate::ir::names(out@) == start + ps.subrange(0, i as int),
        decreases pattern.len() - i,
    {
        let ghost before = crate::ir::names(out@);
        out.push(pattern[i].clone());
        assert(crate::ir::names(out@) =~= before.push(pattern@[i as int]@));
        assert(crate::ir::names(out@) =~= start + ps.subrange(0, i + 1));
        i += 1;
    }
    assert(ps.subrange(0, i as int) =~= ps);
    collect_effect_defines(value, out);
}

/// The free variables of an expression, in alphabetical order.
fn sorted_free_vars(n: &IRNode) -> (r: Vec<TempId>)
    ensures
        crate::ir::names(r@) == sorted_free(n@),
{
    let free = free_vars(n);
    let ghost fs = crate::ir::names(free@);
    let mut out: Vec<TempId> = Vec::new();
    let mut i: usize = 0;
    assert(crate::sorting::in_order(crate::ir::names(out@)));
    while i < free.len()
        invariant
            i <= free.len(),
            fs == crate::ir::names(free@),
            crate::sorting::in_order(crate::ir::names(out@)),
            forall|x: Name| #[trigger]
                crate::ir::names(out@).contains(x) <==> exists|j: int|
                    0 <= j < i && #[trigger] fs[j] == x,
        decreases free.len() - i,
    {
        let ghost before = crate::ir::names(out@);
        assert(fs[i as int] == free@[i as int]@);
        insert_name(&mut out, &free[i]);
        assert forall|x: Name| #[trigger]
            crate::ir::names(out@).contains(x) <==> exists|j: int|
                0 <= j < i + 1 && #[trigger] fs[j] == x by {
            assert(crate::ir::names(out@).contains(x) <==> before.contains(x) || x
                == fs[i as int]);
        }
        i += 1;
    }
    proof {
        let s = crate::ir::names(out@);
        let p = |x: Name| n@.free(x);
        assert forall|x: Name| #[trigger] s.contains(x) <==> p(x) by {
            assert(fs.contains(x) <==> n@.free(x));
            if fs.contains(x) {
                let j = choose|j: int| 0 <= j < fs.len() && fs[j] == x;
                assert(0 <= j < i && fs[j] == x);
            }
        }
        assert(crate::sorting::lists(s, p));
        crate::sorting::lemma_ordered(s, p);
    }
    out
}

/// The variables that the rest needs of those that are defined.
fn find_live_out(defined: &Vec<TempId>, rest: &IRNode) -> (r: Vec<TempId>)
    ensures
        crate::ir::names(r@) == wanted(
            Seq::empty(),
            crate::ir::names(defined@),
            |x: Name| rest@.free(x),
        ),
{
    let free = free_vars(rest);
    let ghost ds = crate::ir::names(defined@);
    let ghost want = |x: Name| rest@.free(x);
    let mut out: Vec<TempId> = Vec::new();
    let mut i: usize = 0;
    assert(ds.subrange(0, 0) =~= Seq::empty());
    assert(crate::ir::names(out@) =~= Seq::empty());
    while i < defined.len()
        invariant
            i <= defined.len(),
            ds == crate::ir::names(defined@),
            want == (|x: Name| rest@.free(x)),
            forall|x: Name| #[trigger] crate::ir::names(free@).contains(x) <==> rest@.free(x),
            crate::ir::names(out@) == wanted(Seq::empty(), ds.subrange(0, i as int), want),
        decreases defined.len() - i,
    {
        let ghost next = ds.subrange(0, i + 1);
        assert(next.drop_last() =~= ds.subrange(0, i as int));
        assert(next.last() == defined@[i as int]@);
        let ghost before = crate::ir::names(out@);
        if contains_name(&free, &defined[i]) && !contains_name(&out, &defined[i]) {
            out.push(defined[i].clone());
            assert(crate::ir::names(out@) =~= before.push(defined@[i as int]@));
        }
        i += 1;
    }
    assert(ds.subrange(0, i as int) =~= ds);
    out
}

/// Adds the variables that are not defined yet, each once.
fn add_undefined(out: &mut Vec<TempId>, xs: &Vec<TempId>, defined: &Vec<TempId>)
    ensures
        crate::ir::names(final(out)@) == wanted(
            crate::ir::names(old(out)@),
            crate::ir::names(xs@),
            |x: Name| !crate::ir::names(defined@).contains(x),
        ),
{
    let ghost start = crate::ir::names(out@);
    let ghost all = crate::ir::names(xs@);
    let ghost want = |x: Name| !crate::ir::names(defined@).contains(x);
    let mut i: usize = 0;
    assert(all.subrange(0, 0) =~= Seq::empty());
    while i < xs.len()
        invariant
            i <= xs.len(),
            all == crate::ir::names(xs@),
            want == (|x: Name| !crate::ir::names(defined@).contains(x)),
            crate::ir::names(out@) == wanted(start, all.subrange(0, i as int), want),
        decreases xs.len() - i,
    {
        let ghost next = all.subrange(0, i + 1);
        assert(next.drop_last() =~= all.subrange(0, i as int));
        assert(next.last() == xs@[i as int]@);
        let ghost before = crate::ir::names(out@);
        if !contains_name(defined, &xs[i]) && !contains_name(out, &xs[i]) {
            out.push(xs[i].clone());
            assert(crate::ir::names(out@) =~= before.push(xs@[i as int]@));
        }
        i += 1;
    }
    assert(all.subrange(0, i as int) =~= all);
}

/// The variables from outside that the bindings read, and those that they define.
fn find_live_in(bs: &Vec<(Vec<TempId>, IRNode)>) -> (r: (Vec<TempId>, Vec<TempId>))
    ensures
        crate::ir::names(r.0@) == live_in(crate::shadowing::binding_views(bs@)),
        crate::ir::names(r.1@) == defined_by(crate::shadowing::binding_views(bs@)),
{
    let ghost all = crate::shadowing::binding_views(bs@);
    let mut ins: Vec<TempId> = Vec::new();
    let mut defined: Vec<TempId> = Vec::new();
    let mut i: usize = 0;
    assert(all.subrange(0, 0) =~= Seq::empty());
    assert(crate::ir::names(ins@) =~= Seq::empty());
    while i < bs.len()
        invariant
            i <= bs.len(),
            all == crate::shadowing::binding_views(bs@),
            crate::ir::names(ins@) == live_in(all.subrange(0, i as int)),
            crate::ir::names(defined@) == defined_by(all.subrange(0, i as int)),
        decreases bs.len() - i,
    {
        let ghost next = all.subrange(0, i + 1);
        assert(next.drop_last() =~= all.subrange(0, i as int));
        assert(next.last() == (crate::ir::names(bs@[i as int].0@), bs@[i as int].1@));
        let free = sorted_free_vars(&bs[i].1);
        add_undefined(&mut ins, &free, &defined);
        assert((|x: Name| !crate::ir::names(defined@).contains(x)) =~= (|x: Name|
            !defined_by(next.drop_last()).contains(x)));
        add_defined(&bs[i].0, &bs[i].1, &mut defined);
        i += 1;
    }
    assert(all.subrange(0, i as int) =~= all);
    (ins, defined)
}

/// Variables that are not in scope stay so.
proof fn lemma_untyped(xs: Seq<Name>, k: int, vars: Vars)
    requires
        0 <= k <= xs.len(),
        typed_vars(xs.subrange(0, k), vars) is None,
    ensures
        typed_vars(xs, vars) is None,
    decreases xs.len(),
{
    if k == xs.len() {
        assert(xs.subrange(0, k) =~= xs);
    } else {
        assert(xs.drop_last().subrange(0, k) =~= xs.subrange(0, k));
        lemma_untyped(xs.drop_last(), k, vars);
    }
}

/// The variables with their types.
fn type_vars(xs: &Vec<TempId>, reg: &VariableRegistry) -> (r: Option<Vec<(TempId, Type)>>)
    ensures
        match r {
            Some(out) => typed_vars(crate::ir::names(xs@), reg@) == Some(
                crate::scope::var_views(out@),
            ),
            None => typed_vars(crate::ir::names(xs@), reg@) is None,
        },
{
    let ghost all = crate::ir::names(xs@);
    let mut out: Vec<(TempId, Type)> = Vec::new();
    let mut i: usize = 0;
    assert(all.subrange(0, 0) =~= Seq::empty());
    assert(crate::scope::var_views(out@) =~= Seq::empty());
    while i < xs.len()
        invariant
            i <= xs.len(),
            all == crate::ir::names(xs@),
            typed_vars(all.subrange(0, i as int), reg@) == Some(crate::scope::var_views(out@)),
        decreases xs.len() - i,
    {
        let ghost next = all.subrange(0, i + 1);
        assert(next.drop_last() =~= all.subrange(0, i as int));
        assert(next.last() == xs@[i as int]@);
        let ghost before = crate::scope::var_views(out@);
        match reg.get_type(&xs[i]) {
            Some(t) => {
                out.push((xs[i].clone(), t));
                assert(crate::scope::var_views(out@) =~= before.push((xs@[i as int]@, t@)));
            },
            None => {
                proof {
                    lemma_untyped(all, i + 1, reg@);
                }
                return None;
            },
        }
        i += 1;
    }
    assert(all.subrange(0, i as int) =~= all);
    Some(out)
}

/// A scope that cannot be told stays so.
proof fn lemma_no_scope(vars: Vars, bs: Seq<(Seq<Name>, Node)>, k: int, p: Prog)
    requires
        0 <= k <= bs.len(),
        scope_behind_all(vars, bs.subrange(0, k), p) is None,
    ensures
        scope_behind_all(vars, bs, p) is None,
    decreases bs.len(),
{
    if k == bs.len() {
        assert(bs.subrange(0, k) =~= bs);
    } else {
        assert(bs.drop_last().subrange(0, k) =~= bs.subrange(0, k));
        lemma_no_scope(vars, bs.drop_last(), k, p);
    }
}

/// The scope behind the bindings.
fn step_scopes<'a>(
    reg: &VariableRegistry<'a>,
    bs: &Vec<(Vec<TempId>, IRNode)>,
) -> (r: Option<VariableRegistry<'a>>)
    ensures
        match r {
            Some(next) => scope_behind_all(
                reg@,
                crate::shadowing::binding_views(bs@),
                reg.program@,
            ) == Some(next@),
            None => scope_behind_all(
                reg@,
                crate::shadowing::binding_views(bs@),
                reg.program@,
            ) is None,
        },
{
    let ghost all = crate::shadowing::binding_views(bs@);
    let mut out = reg.copy();
    let mut i: usize = 0;
    assert(all.subrange(0, 0) =~= Seq::empty());
    while i < bs.len()
        invariant
            i <= bs.len(),
            all == crate::shadowing::binding_views(bs@),
            *out.program == *reg.program,
            scope_behind_all(reg@, all.subrange(0, i as int), reg.program@) == Some(out@),
        decreases bs.len() - i,
    {
        let ghost next = all.subrange(0, i + 1);
        assert(next.drop_last() =~= all.subrange(0, i as int));
        assert(next.last() == (crate::ir::names(bs@[i as int].0@), bs@[i as int].1@));
        if !step_scope(&mut out, &bs[i].0, &bs[i].1) {
            proof {
                lemma_no_scope(reg@, all, i + 1, reg.program@);
            }
            return None;
        }
        i += 1;
    }
    assert(all.subrange(0, i as int) =~= all);
    Some(out)
}

/// The executable [`Hoist`].
struct Plan {
    path: Vec<Branch>,
    prefix: Vec<(Vec<TempId>, IRNode)>,
    live_in: Vec<(TempId, Type)>,
    live_out: Vec<(TempId, Type)>,
    rest: IRNode,
}

impl Plan {
    /// What the plan holds.
    spec fn view(&self) -> Hoist {
        Hoist {
            path: self.path@,
            prefix: crate::shadowing::binding_views(self.prefix@),
            live_in: crate::scope::var_views(self.live_in@),
            live_out: crate::scope::var_views(self.live_out@),
            rest: self.rest@,
        }
    }
}

/// What a plan that may be absent holds.
spec fn optional_hoist(h: Option<Plan>) -> Option<Hoist> {
    match h {
        Some(h) => Some(h@),
        None => None,
    }
}

/// More bindings have no fewer subexpressions.
proof fn lemma_values_size(bs: Seq<(Seq<Name>, Node)>, k: int)
    requires
        0 <= k <= bs.len(),
    ensures
        values_size(bs.subrange(0, k)) <= values_size(bs),
    decreases bs.len() - k,
{
    if k < bs.len() {
        assert(bs.subrange(0, k + 1).drop_last() =~= bs.subrange(0, k));
        lemma_values_size(bs, k + 1);
    } else {
        assert(bs.subrange(0, k) =~= bs);
    }
}

/// Whether bindings that read the given variables are heavy enough to be worth a helper.
fn is_heavy_enough(bs: &Vec<(Vec<TempId>, IRNode)>, ins: &Vec<TempId>) -> (r: bool)
    requires
        crate::ir::names(ins@) == live_in(crate::shadowing::binding_views(bs@)),
    ensures
        r == is_heavy(crate::shadowing::binding_views(bs@)),
{
    let ghost all = crate::shadowing::binding_views(bs@);
    assert(crate::ir::names(ins@).len() == ins@.len());
    let mut left: u128 = 1 + ins.len() as u128;
    let ghost limit: int = left as int;
    let mut i: usize = 0;
    assert(all.subrange(0, 0) =~= Seq::empty());
    while i < bs.len()
        invariant
            i <= bs.len(),
            all == crate::shadowing::binding_views(bs@),
            limit == 1 + live_in(all).len(),
            left + values_size(all.subrange(0, i as int)) == limit,
        decreases bs.len() - i,
    {
        let ghost next = all.subrange(0, i + 1);
        assert(next.drop_last() =~= all.subrange(0, i as int));
        assert(next.last().1 == bs@[i as int].1@);
        match spend(&bs[i].1, left) {
            Some(l) => {
                left = l;
            },
            None => {
                proof {
                    lemma_values_size(all, i + 1);
                }
                return true;
            },
        }
        i += 1;
    }
    assert(all.subrange(0, i as int) =~= all);
    false
}

/// What is to be hoisted out of a chain of bindings.
fn plan_from_spine(
    n: &IRNode,
    f: FunctionID,
    reg: &VariableRegistry,
    path: Vec<Branch>,
) -> (r: Option<Plan>)
    ensures
        optional_hoist(r) == hoist_from(reg.program@, f, path@, reg@, n@),
{
    let none: Vec<(Vec<TempId>, IRNode)> = Vec::new();
    assert(crate::shadowing::binding_views(none@) =~= Seq::empty());
    let (prefix, rest) = cut_spine(n, f, none);
    let ghost bs = crate::shadowing::binding_views(prefix@);
    assert(bs.len() == prefix@.len());
    if !calls_function(&rest, f) || prefix.len() == 0 {
        return None;
    }
    let (ins, defined) = find_live_in(&prefix);
    let outs = find_live_out(&defined, &rest);
    assert(crate::ir::names(outs@).len() == outs@.len());
    if outs.len() == 0 || !is_heavy_enough(&prefix, &ins) {
        return None;
    }
    let after = match step_scopes(reg, &prefix) {
        Some(after) => after,
        None => {
            return None;
        },
    };
    match (type_vars(&ins, reg), type_vars(&outs, &after)) {
        (Some(live_in), Some(live_out)) => Some(Plan { path, prefix, live_in, live_out, rest }),
        _ => None,
    }
}

/// What is to be hoisted out of a loop.
fn plan_extraction(program: &Program, f: FunctionID) -> (r: Option<Plan>)
    requires
        program@.has(f),
    ensures
        optional_hoist(r) == hoist_of(program@, f),
{
    let func = program.function(f);
    let mut reg = VariableRegistry::of_params(program, &func.signature.parameters);
    let none: Vec<Branch> = Vec::new();
    assert(none@ =~= Seq::empty());
    match find_spine(&func.body, f, &mut reg, false, none) {
        Some((path, n)) => plan_from_spine(n, f, &reg, path),
        None => None,
    }
}

/// Variables as expressions.
fn make_vars(vars: &Vec<(TempId, Type)>) -> (r: Vec<IRNode>)
    ensures
        IRNode::views(r@) == as_vars(names_in(crate::scope::var_views(vars@))),
{
    let mut out: Vec<IRNode> = Vec::new();
    let mut i: usize = 0;
    while i < vars.len()
        invariant
            i <= vars.len(),
            out@.len() == i,
            forall|j: int| 0 <= j < i ==> (#[trigger] out@[j])@ == Node::Var(vars@[j].0@),
        decreases vars.len() - i,
    {
        out.push(IRNode::Var(vars[i].0.clone()));
        i += 1;
    }
    assert(IRNode::views(out@) =~= as_vars(names_in(crate::scope::var_views(vars@))));
    out
}

/// The names of variables.
fn make_names(vars: &Vec<(TempId, Type)>) -> (r: Vec<TempId>)
    ensures
        crate::ir::names(r@) == names_in(crate::scope::var_views(vars@)),
{
    let mut out: Vec<TempId> = Vec::new();
    let mut i: usize = 0;
    while i < vars.len()
        invariant
            i <= vars.len(),
            out@.len() == i,
            forall|j: int| 0 <= j < i ==> (#[trigger] out@[j])@ == vars@[j].0@,
        decreases vars.len() - i,
    {
        out.push(vars[i].0.clone());
        i += 1;
    }
    assert(crate::ir::names(out@) =~= names_in(crate::scope::var_views(vars@)));
    out
}

/// The types of variables.
fn make_types(vars: &Vec<(TempId, Type)>) -> (r: Vec<Type>)
    ensures
        Type::views(r@) == types_in(crate::scope::var_views(vars@)),
{
    let mut out: Vec<Type> = Vec::new();
    let mut i: usize = 0;
    while i < vars.len()
        invariant
            i <= vars.len(),
            out@.len() == i,
            forall|j: int| 0 <= j < i ==> (#[trigger] out@[j])@ == vars@[j].1@,
        decreases vars.len() - i,
    {
        out.push(vars[i].1.clone());
        i += 1;
    }
    assert(Type::views(out@) =~= types_in(crate::scope::var_views(vars@)));
    out
}

/// The parameters for variables.
fn make_params(vars: &Vec<(TempId, Type)>) -> (r: Vec<Parameter>)
    ensures
        Parameter::views(r@) == Seq::new(
            vars@.len(),
            |i: int|
                Param {
                    name: crate::scope::var_views(vars@)[i].0,
                    param_type: crate::scope::var_views(vars@)[i].1,
                    ssa_value: crate::scope::var_views(vars@)[i].0,
                },
        ),
{
    let mut out: Vec<Parameter> = Vec::new();
    let mut i: usize = 0;
    while i < vars.len()
        invariant
            i <= vars.len(),
            out@.len() == i,
            forall|j: int|
                0 <= j < i ==> (#[trigger] out@[j])@ == (Param {
                    name: vars@[j].0@,
                    param_type: vars@[j].1@,
                    ssa_value: vars@[j].0@,
                }),
        decreases vars.len() - i,
    {
        out.push(
            Parameter {
                name: vars[i].0.clone(),
                param_type: vars[i].1.clone(),
                ssa_value: vars[i].0.clone(),
            },
        );
        i += 1;
    }
    assert(Parameter::views(out@) =~= Seq::new(
        vars@.len(),
        |i: int|
            Param {
                name: crate::scope::var_views(vars@)[i].0,
                param_type: crate::scope::var_views(vars@)[i].1,
                ssa_value: crate::scope::var_views(vars@)[i].0,
            },
    ));
    out
}

/// The body with something else at the end of a way through it.
fn splice_branch(n: &IRNode, path: &Vec<Branch>, from: usize, with: &IRNode) -> (r: IRNode)
    requires
        from <= path@.len(),
    ensures
        r@ == spliced(n@, path@.subrange(from as int, path@.len() as int), with@),
    decreases path@.len() - from,
{
    let ghost here = path@.subrange(from as int, path@.len() as int);
    if from == path.len() {
        return with.clone();
    }
    assert(here.subrange(1, here.len() as int) =~= path@.subrange(from + 1, path@.len() as int));
    assert(here[0] == path@[from as int]);
    match (path[from], n) {
        (Branch::Let, IRNode::Let { pattern, value, body }) => IRNode::Let {
            pattern: clone_names(pattern),
            value: value.clone(),
            body: Box::new(splice_branch(body, path, from + 1, with)),
        },
        (Branch::Then, IRNode::If { cond, then_branch, else_branch }) => IRNode::If {
            cond: cond.clone(),
            then_branch: Box::new(splice_branch(then_branch, path, from + 1, with)),
            else_branch: else_branch.clone(),
        },
        (Branch::Else, IRNode::If { cond, then_branch, else_branch }) => IRNode::If {
            cond: cond.clone(),
            then_branch: then_branch.clone(),
            else_branch: Box::new(splice_branch(else_branch, path, from + 1, with)),
        },
        _ => n.clone(),
    }
}

/// A copy of a list of bindings.
fn clone_bindings(bs: &Vec<(Vec<TempId>, IRNode)>) -> (r: Vec<(Vec<TempId>, IRNode)>)
    ensures
        crate::shadowing::binding_views(r@) == crate::shadowing::binding_views(bs@),
{
    let mut out: Vec<(Vec<TempId>, IRNode)> = Vec::new();
    let mut i: usize = 0;
    while i < bs.len()
        invariant
            i <= bs.len(),
            out@.len() == i,
            forall|j: int| #![trigger out@[j]]
                0 <= j < i ==> out@[j].0@ == bs@[j].0@ && out@[j].1@ == bs@[j].1@,
        decreases bs.len() - i,
    {
        out.push((clone_names(&bs[i].0), bs[i].1.clone()));
        i += 1;
    }
    assert(crate::shadowing::binding_views(out@) =~= crate::shadowing::binding_views(bs@));
    out
}

/// The helper that a hoisted body becomes.
fn make_helper(f: &Function, h: &Plan) -> (r: Function)
    ensures
        r@ == step_helper(f@, h@),
{
    let ghost outs = names_in(h@.live_out);
    assert(h@.live_out.len() == h.live_out@.len());
    assert(h@.live_in.len() == h.live_in@.len());
    let return_type = if h.live_out.len() == 1 {
        assert(h@.live_out[0].1 == h.live_out@[0].1@);
        h.live_out[0].1.clone()
    } else {
        Type::Tuple(make_types(&h.live_out))
    };
    let tail = if h.live_out.len() == 1 {
        let x = IRNode::Var(h.live_out[0].0.clone());
        assert(x@ == Node::Var(outs[0]));
        x
    } else {
        IRNode::Tuple(make_vars(&h.live_out))
    };
    let body = rebuild_let_chain(clone_bindings(&h.prefix), tail);
    let proof_params: Vec<ProofParam> = Vec::new();
    assert(ProofParam::views(proof_params@) =~= Seq::empty());
    let helper = Function {
        module_id: f.module_id,
        name: append(f.name.as_str(), ".step"),
        signature: FunctionSignature {
            type_params: clone_names(&f.signature.type_params),
            parameters: make_params(&h.live_in),
            proof_params,
            return_type,
        },
        body,
        theorem: None,
        is_native: false,
        mutual_group_id: None,
        is_uninterpreted: false,
    };
    assert(helper@.signature =~= step_helper(f@, h@).signature);
    helper
}

/// What stands in the loop in place of the hoisted body.
fn make_call(f: &Function, h: &Plan, id: FunctionID) -> (r: IRNode)
    ensures
        r@ == step_call(f@, h@, id),
{
    let n = f.signature.type_params.len();
    assert(f@.signature.type_params.len() == n);
    let mut type_args: Vec<Type> = Vec::new();
    let mut i: usize = 0;
    while i < n
        invariant
            i <= n,
            type_args@.len() == i,
            forall|j: int|
                0 <= j < i ==> (#[trigger] type_args@[j])@ == Ty::TypeParameter(
                    (j as usize) as u16,
                ),
        decreases n - i,
    {
        type_args.push(Type::TypeParameter(i as u16));
        i += 1;
    }
    let ghost goal = step_call(f@, h@, id);
    let args = make_vars(&h.live_in);
    assert(Type::views(type_args@) =~= Seq::new(
        n as nat,
        |i: int| Ty::TypeParameter((i as usize) as u16),
    ));
    let call = IRNode::Call { function: id, type_args, args };
    assert(call@ == Node::Call {
        function: id,
        type_args: Seq::new(n as nat, |i: int| Ty::TypeParameter((i as usize) as u16)),
        args: as_vars(names_in(h@.live_in)),
    });
    IRNode::Let {
        pattern: make_names(&h.live_out),
        value: Box::new(call),
        body: Box::new(h.rest.clone()),
    }
}

/// Gives a function what another has.
fn hand_on(s: &mut Vec<(FunctionID, Vec<usize>)>, from: FunctionID, to: FunctionID)
    ensures
        crate::program::index_views(final(s)@) == handed_on(
            crate::program::index_views(old(s)@),
            from,
            to,
        ),
{
    let ghost before = crate::program::index_views(s@);
    proof {
        crate::program::lemma_same_slots(s@, before, from);
        crate::program::lemma_same_slots(s@, before, to);
    }
    if let Some(i) = slot_of(s, from) {
        let v = copy_indices(&s[i].1);
        let ghost w = v@;
        match slot_of(s, to) {
            Some(k) => {
                s[k] = (to, v);
                assert(crate::program::index_views(s@) =~= before.update(k as int, (to, w)));
            },
            None => {
                s.push((to, v));
                assert(crate::program::index_views(s@) =~= before.push((to, w)));
            },
        }
    }
}

/// A copy of a list of indices.
fn copy_indices(v: &Vec<usize>) -> (r: Vec<usize>)
    ensures
        r@ == v@,
{
    let mut out: Vec<usize> = Vec::new();
    let mut i: usize = 0;
    while i < v.len()
        invariant
            i <= v.len(),
            out@ == v@.subrange(0, i as int),
        decreases v.len() - i,
    {
        out.push(v[i]);
        assert(out@ =~= v@.subrange(0, i + 1));
        i += 1;
    }
    assert(v@.subrange(0, i as int) =~= v@);
    out
}

/// A function keeps its place behind an added one.
proof fn lemma_still_there(p: Prog, f: FunctionID, id: FunctionID, g: Func)
    requires
        p.has(f),
    ensures
        crate::program::slot(p.functions.push((id, g)), f) == crate::program::slot(p.functions, f),
        crate::program::lookup(p.functions.push((id, g)), f) == Some(p.func(f)),
{
    let i = crate::program::slot(p.functions, f)->0;
    assert(crate::program::is_slot(p.functions, f, i));
    let s = p.functions.push((id, g));
    assert forall|j: int| 0 <= j < i implies (#[trigger] s[j]).0 != f by {
        assert(p.functions[j].0 != f);
    }
    assert(crate::program::is_slot(s, f, i));
    crate::program::lemma_slot(s, f, i);
}

/// Hoists a body out of a loop.
fn apply_plan(program: &mut Program, f: FunctionID, h: Plan, id: FunctionID)
    requires
        old(program)@.has(f),
    ensures
        final(program)@ == hoisted(old(program)@, f, h@, id),
{
    let ghost p = program@;
    let helper = make_helper(program.function(f), &h);
    let call = make_call(program.function(f), &h, id);
    assert(h.path@.subrange(0, h.path@.len() as int) =~= h.path@);
    let body = splice_branch(&program.function(f).body, &h.path, 0, &call);
    let ghost g = helper@;
    program.functions.push((id, helper));
    assert(program@.functions =~= p.functions.push((id, g)));
    hand_on(&mut program.fn_hascode_params, f, id);
    hand_on(&mut program.fn_bagu_params, f, id);
    proof {
        lemma_still_there(p, f, id, g);
    }
    program.set_body(f, body);
}

/// The loop helpers whose bodies may be hoisted.
fn find_loops(program: &Program) -> (r: Vec<FunctionID>)
    ensures
        r@ == loops_of(program@, program@.functions),
{
    let ghost fs = program@.functions;
    let mut out: Vec<FunctionID> = Vec::new();
    let mut i: usize = 0;
    assert(fs.subrange(0, 0) =~= Seq::empty());
    while i < program.functions.len()
        invariant
            i <= program.functions.len(),
            fs == program@.functions,
            out@ == loops_of(program@, fs.subrange(0, i as int)),
        decreases program.functions.len() - i,
    {
        let ghost next = fs.subrange(0, i + 1);
        assert(next.drop_last() =~= fs.subrange(0, i as int));
        assert(next.last() == (program.functions@[i as int].0, program.functions@[i as int].1@));
        if is_extractable_loop(program, &program.functions[i].1) {
            out.push(program.functions[i].0);
        }
        i += 1;
    }
    assert(fs.subrange(0, i as int) =~= fs);
    out
}

/// Hoists the bodies out of the loops of the program. A loop stays as it is where
/// its shape is another or the types of its variables cannot be told.
pub fn extract_loop_bodies(program: &mut Program)
    ensures
        final(program)@ == bodies_hoisted(old(program)@),
{
    let ghost p = program@;
    let ids = find_loops(program);
    let mut i: usize = 0;
    assert(ids@.subrange(0, 0) =~= Seq::empty());
    while i < ids.len()
        invariant
            i <= ids.len(),
            program@ == all_hoisted(p, ids@.subrange(0, i as int)),
        decreases ids.len() - i,
    {
        let ghost next = ids@.subrange(0, i + 1);
        assert(next.drop_last() =~= ids@.subrange(0, i as int));
        let f = ids[i];
        if program.function_slot(f).is_some() {
            if let Some(id) = next_id(program) {
                if let Some(h) = plan_extraction(program, f) {
                    apply_plan(program, f, h, id);
                }
            }
        }
        i += 1;
    }
    assert(ids@.subrange(0, i as int) =~= ids@);
}

/// The bindings that are hoisted and what follows them make up the chain.
pub proof fn law_split_spine_round_trip(n: Node, f: FunctionID, acc: Seq<(Seq<Name>, Node)>)
    ensures
        ({
            let (prefix, rest) = split_spine(n, f, acc);
            crate::shadowing::chained(prefix, rest) == crate::shadowing::chained(acc, n)
        }),
    decreases n,
{
    match n {
        Node::Let { pattern, value, body } => {
            let next = acc.push((pattern, *value));
            law_split_spine_round_trip(*body, f, next);
            assert(next.drop_last() =~= acc);
        },
        _ => {},
    }
}

/// The way to the chain of bindings leads to that chain: putting it back where it
/// was found changes nothing.
pub proof fn law_spine_is_where_it_was_found(
    p: Prog,
    n: Node,
    f: FunctionID,
    vars: Vars,
    crossed: bool,
    path: Seq<Branch>,
)
    requires
        found_spine(p, n, f, vars, crossed, path) is Some,
    ensures
        ({
            let (way, _vars, m) = found_spine(p, n, f, vars, crossed, path)->0;
            way.len() >= path.len() && way.subrange(0, path.len() as int) == path && spliced(
                n,
                way.subrange(path.len() as int, way.len() as int),
                m,
            ) == n
        }),
    decreases n,
{
    let (way, _vars, m) = found_spine(p, n, f, vars, crossed, path)->0;
    if crossed && spine_class(n, f) == SpineClass::Spine {
        assert(way.subrange(0, path.len() as int) =~= path);
        assert(way.subrange(path.len() as int, way.len() as int) =~= Seq::empty());
    } else {
        match n {
            Node::Let { pattern, value, body } => {
                let next = scope_behind(vars, pattern, *value, p)->0;
                law_spine_is_where_it_was_found(
                    p,
                    *body,
                    f,
                    next,
                    crossed,
                    path.push(Branch::Let),
                );
                lemma_way(way, path, Branch::Let);
            },
            Node::If { then_branch, else_branch, .. } => {
                if then_branch.calls(f) {
                    law_spine_is_where_it_was_found(
                        p,
                        *then_branch,
                        f,
                        vars,
                        true,
                        path.push(Branch::Then),
                    );
                    lemma_way(way, path, Branch::Then);
                } else {
                    law_spine_is_where_it_was_found(
                        p,
                        *else_branch,
                        f,
                        vars,
                        true,
                        path.push(Branch::Else),
                    );
                    lemma_way(way, path, Branch::Else);
                }
            },
            _ => {},
        }
    }
}

/// The first turn of the rest of a way.
proof fn lemma_way(way: Seq<Branch>, path: Seq<Branch>, turn: Branch)
    requires
        way.len() >= path.len() + 1,
        way.subrange(0, (path.len() + 1) as int) == path.push(turn),
    ensures
        way.subrange(0, path.len() as int) == path,
        way.subrange(path.len() as int, way.len() as int)[0] == turn,
        way.subrange(path.len() as int, way.len() as int).subrange(
            1,
            way.len() - path.len(),
        ) == way.subrange((path.len() + 1) as int, way.len() as int),
{
    let longer = way.subrange(0, (path.len() + 1) as int);
    assert(longer[path.len() as int] == turn);
    assert(way.subrange(0, path.len() as int) =~= path) by {
        assert forall|i: int| 0 <= i < path.len() implies way[i] == path[i] by {
            assert(longer[i] == path[i]);
        }
    }
    assert(way.subrange(path.len() as int, way.len() as int).subrange(1, way.len() - path.len())
        =~= way.subrange((path.len() + 1) as int, way.len() as int));
}

/// The variables that occur free are finitely many.
proof fn lemma_frees_listed(n: Node) -> (r: Seq<Name>)
    ensures
        forall|x: Name| #[trigger] n.free(x) ==> r.contains(x),
    decreases n, 1nat, 0nat,
{
    let own = match n {
        Node::Var(v) => seq![v],
        Node::WriteBack { child, parent, .. } => seq![child, parent],
        _ => Seq::empty(),
    };
    let inner = lemma_frees_of_kids(n, n.kids().len());
    let r = own + inner;
    assert forall|x: Name| #[trigger] n.free(x) implies r.contains(x) by {
        if n.uses_here(x) {
            match n {
                Node::Var(v) => {
                    assert(r[0] == x);
                },
                Node::WriteBack { child, parent, .. } => {
                    assert(r[0] == child && r[1] == parent);
                },
                _ => {},
            }
        } else {
            assert(n.free_in_kid(x));
            let i = choose|i: int|
                0 <= i < n.kids().len() && (#[trigger] n.kids()[i]).free(x) && !n.binds(i, x);
            assert(inner.contains(x));
            let k = choose|k: int| 0 <= k < inner.len() && inner[k] == x;
            assert(r[own.len() + k] == x);
        }
    }
    r
}

/// The variables that occur free in the first `k` parts are finitely many.
proof fn lemma_frees_of_kids(n: Node, k: nat) -> (r: Seq<Name>)
    requires
        k <= n.kids().len(),
    ensures
        forall|i: int, x: Name| 0 <= i < k && #[trigger] n.kids()[i].free(x) ==> r.contains(x),
    decreases n, 0nat, k,
{
    if k == 0 {
        Seq::empty()
    } else {
        n.lemma_kids_decrease();
        let before = lemma_frees_of_kids(n, (k - 1) as nat);
        let last = lemma_frees_listed(n.kids()[k - 1]);
        let r = before + last;
        assert forall|i: int, x: Name|
            0 <= i < k && #[trigger] n.kids()[i].free(x) implies r.contains(x) by {
            if i < k - 1 {
                assert(before.contains(x));
                let j = choose|j: int| 0 <= j < before.len() && before[j] == x;
                assert(r[j] == x);
            } else {
                assert(last.contains(x));
                let j = choose|j: int| 0 <= j < last.len() && last[j] == x;
                assert(r[before.len() + j] == x);
            }
        }
        r
    }
}

/// The free variables in order are the free variables.
proof fn lemma_sorted_free(n: Node, x: Name)
    ensures
        sorted_free(n).contains(x) <==> n.free(x),
{
    let p = |y: Name| n.free(y);
    let all = lemma_frees_listed(n);
    assert forall|y: Name| #[trigger] p(y) implies all.contains(y) by {
        assert(n.free(y));
    }
    let s = crate::sorting::lemma_listed(all, p);
    crate::sorting::lemma_ordered(s, p);
    assert(p(x) == n.free(x));
}

/// What is wanted is among those so far or in the list, and nothing is lost.
proof fn lemma_wanted(acc: Seq<Name>, xs: Seq<Name>, want: spec_fn(Name) -> bool, x: Name)
    ensures
        wanted(acc, xs, want).contains(x) <==> acc.contains(x) || (xs.contains(x) && want(x)),
    decreases xs.len(),
{
    if xs.len() > 0 {
        let front = xs.drop_last();
        let before = wanted(acc, front, want);
        let all = wanted(acc, xs, want);
        lemma_wanted(acc, front, want, x);
        assert(xs.contains(x) <==> front.contains(x) || xs.last() == x) by {
            if xs.contains(x) {
                let k = choose|k: int| 0 <= k < xs.len() && xs[k] == x;
                if k < front.len() {
                    assert(front[k] == x);
                }
            }
            if front.contains(x) {
                let k = choose|k: int| 0 <= k < front.len() && front[k] == x;
                assert(xs[k] == x);
            }
            assert(xs[xs.len() - 1] == xs.last());
        }
        if want(xs.last()) && !before.contains(xs.last()) {
            assert(all == before.push(xs.last()));
            assert(all.contains(x) <==> before.contains(x) || xs.last() == x) by {
                if before.contains(x) {
                    let k = choose|k: int| 0 <= k < before.len() && before[k] == x;
                    assert(all[k] == x);
                }
                assert(all[all.len() - 1] == xs.last());
                if all.contains(x) {
                    let k = choose|k: int| 0 <= k < all.len() && all[k] == x;
                    if k < before.len() {
                        assert(before[k] == x);
                    }
                }
            }
        }
    }
}

/// Whether no bound value assigns the variable unless it occurs free in the value.
pub open spec fn assigned_openly(bs: Seq<(Seq<Name>, Node)>, x: Name) -> bool {
    forall|i: int|
        0 <= i < bs.len() && assigned((#[trigger] bs[i]).1).contains(x) ==> bs[i].1.free(x)
}

/// Whether one of the bindings binds the name.
pub open spec fn is_bound_by(bs: Seq<(Seq<Name>, Node)>, x: Name) -> bool {
    exists|i: int| 0 <= i < bs.len() && (#[trigger] bs[i]).0.contains(x)
}

/// Whether a value of the bindings reads the name, which no binding before it binds.
pub open spec fn reads_outer(bs: Seq<(Seq<Name>, Node)>, x: Name) -> bool {
    exists|i: int|
        0 <= i < bs.len() && (#[trigger] bs[i]).1.free(x) && !is_bound_by(bs.subrange(0, i), x)
}

/// What bindings define is what they bind or assign.
proof fn lemma_defined(bs: Seq<(Seq<Name>, Node)>, x: Name)
    requires
        defined_by(bs).contains(x),
    ensures
        is_bound_by(bs, x) || exists|i: int|
            0 <= i < bs.len() && assigned((#[trigger] bs[i]).1).contains(x),
    decreases bs.len(),
{
    if bs.len() > 0 {
        let front = bs.drop_last();
        let (a, b, c) = (defined_by(front), bs.last().0, assigned(bs.last().1));
        let all = a + b + c;
        let k = choose|k: int| 0 <= k < all.len() && all[k] == x;
        assert(bs[bs.len() - 1] == bs.last());
        if k < a.len() {
            assert(a[k] == x);
            lemma_defined(front, x);
            if is_bound_by(front, x) {
                let i = choose|i: int| 0 <= i < front.len() && (#[trigger] front[i]).0.contains(x);
                assert(bs[i].0.contains(x));
            } else {
                let i = choose|i: int|
                    0 <= i < front.len() && assigned((#[trigger] front[i]).1).contains(x);
                assert(bs[i] == front[i]);
            }
        } else if k < a.len() + b.len() {
            assert(b[k - a.len()] == x);
        } else {
            assert(c[k - a.len() - b.len()] == x);
        }
    }
}

/// What a value of bindings reads from outside is among what they read.
proof fn lemma_live_in(bs: Seq<(Seq<Name>, Node)>, x: Name)
    requires
        assigned_openly(bs, x),
        reads_outer(bs, x),
    ensures
        live_in(bs).contains(x),
    decreases bs.len(),
{
    if bs.len() > 0 {
        let front = bs.drop_last();
        let before = live_in(front);
        let free = sorted_free(bs.last().1);
        let want = |y: Name| !defined_by(front).contains(y);
        lemma_wanted(before, free, want, x);
        lemma_sorted_free(bs.last().1, x);
        assert forall|i: int|
            0 <= i < front.len() && assigned((#[trigger] front[i]).1).contains(x) implies
            front[i].1.free(x) by {
            assert(front[i] == bs[i]);
        }
        let i = choose|i: int|
            0 <= i < bs.len() && (#[trigger] bs[i]).1.free(x) && !is_bound_by(
                bs.subrange(0, i),
                x,
            );
        if i < front.len() {
            assert(front[i] == bs[i]);
            assert(front.subrange(0, i) =~= bs.subrange(0, i));
            lemma_live_in(front, x);
        } else if defined_by(front).contains(x) {
            assert(bs.subrange(0, i) =~= front);
            lemma_defined(front, x);
            let j = choose|j: int|
                0 <= j < front.len() && assigned((#[trigger] front[j]).1).contains(x);
            assert(front[j].1.free(x));
            assert(!is_bound_by(front.subrange(0, j), x)) by {
                let f = front.subrange(0, j);
                if is_bound_by(f, x) {
                    let k = choose|k: int| 0 <= k < f.len() && (#[trigger] f[k]).0.contains(x);
                    assert(front[k].0.contains(x));
                }
            }
            assert(reads_outer(front, x));
            lemma_live_in(front, x);
        }
    }
}

/// What occurs free in chained bindings is read by a value from outside, or by the tail.
proof fn lemma_chained_free(bs: Seq<(Seq<Name>, Node)>, tail: Node, x: Name)
    requires
        crate::shadowing::chained(bs, tail).free(x),
    ensures
        reads_outer(bs, x) || (tail.free(x) && !is_bound_by(bs, x)),
    decreases bs.len(),
{
    if bs.len() > 0 {
        let front = bs.drop_last();
        let last = bs.last();
        let inner = Node::Let {
            pattern: last.0,
            value: Box::new(last.1),
            body: Box::new(tail),
        };
        lemma_chained_free(front, inner, x);
        assert(bs[bs.len() - 1] == last);
        assert(bs.subrange(0, bs.len() - 1) =~= front);
        if reads_outer(front, x) {
            let i = choose|i: int|
                0 <= i < front.len() && (#[trigger] front[i]).1.free(x) && !is_bound_by(
                    front.subrange(0, i),
                    x,
                );
            assert(front.subrange(0, i) =~= bs.subrange(0, i));
            assert(bs[i].1.free(x));
        } else {
            assert(inner.kids() =~= seq![last.1, tail]);
            assert(inner.free_in_kid(x));
            let i = choose|i: int|
                0 <= i < inner.kids().len() && (#[trigger] inner.kids()[i]).free(x)
                    && !inner.binds(i, x);
            if i == 0 {
                assert(bs[bs.len() - 1].1.free(x));
            } else {
                assert(!is_bound_by(bs, x)) by {
                    if is_bound_by(bs, x) {
                        let k = choose|k: int|
                            0 <= k < bs.len() && (#[trigger] bs[k]).0.contains(x);
                        if k < front.len() {
                            assert(front[k].0.contains(x));
                        }
                    }
                }
            }
        }
    }
}

/// The variables with their types are the variables.
proof fn lemma_typed_names(xs: Seq<Name>, vars: Vars)
    ensures
        typed_vars(xs, vars) matches Some(ts) ==> names_in(ts) == xs,
    decreases xs.len(),
{
    if xs.len() > 0 {
        lemma_typed_names(xs.drop_last(), vars);
        if let Some(ts) = typed_vars(xs, vars) {
            let before = typed_vars(xs.drop_last(), vars)->0;
            assert forall|i: int| 0 <= i < xs.len() implies #[trigger] names_in(ts)[i]
                == xs[i] by {
                if i < before.len() {
                    assert(names_in(before)[i] == xs.drop_last()[i]);
                    assert(ts[i] == before[i]);
                }
            }
            assert(names_in(before).len() == before.len());
            assert(names_in(ts) =~= xs);
        }
    }
}

/// What a step returns.
pub open spec fn step_result(outs: Seq<Name>) -> Node {
    if outs.len() == 1 {
        Node::Var(outs[0])
    } else {
        Node::Tuple(as_vars(outs))
    }
}

/// What a step returns reads what it returns.
proof fn lemma_result_free(outs: Seq<Name>, x: Name)
    requires
        step_result(outs).free(x),
    ensures
        outs.contains(x),
{
    let n = step_result(outs);
    if outs.len() == 1 {
        assert(n.kids().len() == 0);
        assert(outs[0] == x);
    } else {
        assert(n.kids() =~= as_vars(outs));
        assert(n.free_in_kid(x));
        let i = choose|i: int|
            0 <= i < n.kids().len() && (#[trigger] n.kids()[i]).free(x) && !n.binds(i, x);
        let v = n.kids()[i];
        assert(v == Node::Var(outs[i]));
        assert(v.kids().len() == 0);
        assert(outs[i] == x);
    }
}

/// Whether the expression binds somewhere a value that assigns the variable, though the
/// variable does not occur free in the value.
pub open spec fn hides(n: Node, x: Name) -> bool {
    n.any(
        |m: Node|
            m matches Node::Let { value, .. } && assigned(*value).contains(x) && !value.free(x),
    )
}

/// Bindings in front of an expression hide what it hides.
proof fn lemma_chained_any(
    bs: Seq<(Seq<Name>, Node)>,
    tail: Node,
    t: spec_fn(Node) -> bool,
)
    requires
        tail.any(t),
    ensures
        crate::shadowing::chained(bs, tail).any(t),
    decreases bs.len(),
{
    if bs.len() > 0 {
        let last = bs.last();
        let inner = Node::Let {
            pattern: last.0,
            value: Box::new(last.1),
            body: Box::new(tail),
        };
        assert(inner.kids() =~= seq![last.1, tail]);
        assert(inner.kids()[1].any(t));
        assert(inner.any_kid(t));
        lemma_chained_any(bs.drop_last(), inner, t);
    }
}

/// Chained bindings hide what one of their values assigns that is not free in it.
proof fn lemma_chained_hides(bs: Seq<(Seq<Name>, Node)>, tail: Node, x: Name, j: int)
    requires
        0 <= j < bs.len(),
        assigned(bs[j].1).contains(x),
        !bs[j].1.free(x),
    ensures
        hides(crate::shadowing::chained(bs, tail), x),
    decreases bs.len(),
{
    let t = |m: Node|
        m matches Node::Let { value, .. } && assigned(*value).contains(x) && !value.free(x);
    let front = bs.drop_last();
    let last = bs.last();
    let inner = Node::Let { pattern: last.0, value: Box::new(last.1), body: Box::new(tail) };
    if j < front.len() {
        assert(front[j] == bs[j]);
        lemma_chained_hides(front, inner, x, j);
    } else {
        assert(t(inner));
        lemma_chained_any(front, inner, t);
    }
}

/// Whether every variable that occurs free in the body of a function is one of its
/// parameters, unless the body hides it.
pub open spec fn is_closed(f: Func) -> bool {
    forall|x: Name| #[trigger] f.body.free(x) ==> crate::frame_lemmas::holds_var(
        f.signature.parameters,
        x,
    ) || hides(f.body, x)
}

/// A step that is hoisted out of a loop is closed: every variable that occurs free in
/// its body is one of its parameters, unless a value that the body binds assigns the
/// variable without having it free.
pub proof fn law_step_is_closed(
    p: Prog,
    f: FunctionID,
    path: Seq<Branch>,
    vars: Vars,
    n: Node,
)
    requires
        hoist_from(p, f, path, vars, n) is Some,
    ensures
        is_closed(step_helper(p.func(f), hoist_from(p, f, path, vars, n)->0)),
{
    let h = hoist_from(p, f, path, vars, n)->0;
    let step = step_helper(p.func(f), h);
    let outs = names_in(h.live_out);
    let after = scope_behind_all(vars, h.prefix, p)->0;
    lemma_typed_names(live_in(h.prefix), vars);
    lemma_typed_names(live_out(h.prefix, h.rest), after);
    assert forall|x: Name| #[trigger] step.body.free(x) implies crate::frame_lemmas::holds_var(
        step.signature.parameters,
        x,
    ) || hides(step.body, x) by {
        if assigned_openly(h.prefix, x) {
            lemma_step_reads(h, x);
            let ins = live_in(h.prefix);
            let i = choose|i: int| 0 <= i < ins.len() && ins[i] == x;
            assert(names_in(h.live_in)[i] == x);
            assert(step.signature.parameters[i].ssa_value == x);
        } else {
            let j = choose|j: int|
                0 <= j < h.prefix.len() && assigned((#[trigger] h.prefix[j]).1).contains(x)
                    && !h.prefix[j].1.free(x);
            lemma_chained_hides(h.prefix, step_result(outs), x, j);
        }
    }
}

/// What occurs free in a step, and is not hidden in it, is what its bindings read.
proof fn lemma_step_reads(h: Hoist, x: Name)
    requires
        names_in(h.live_out) == live_out(h.prefix, h.rest),
        assigned_openly(h.prefix, x),
        crate::shadowing::chained(h.prefix, step_result(names_in(h.live_out))).free(x),
    ensures
        live_in(h.prefix).contains(x),
{
    let outs = names_in(h.live_out);
    lemma_chained_free(h.prefix, step_result(outs), x);
    if !reads_outer(h.prefix, x) {
        lemma_result_free(outs, x);
        lemma_wanted(Seq::empty(), defined_by(h.prefix), |y: Name| h.rest.free(y), x);
        lemma_defined(h.prefix, x);
        let j = choose|j: int|
            0 <= j < h.prefix.len() && assigned((#[trigger] h.prefix[j]).1).contains(x);
        assert(h.prefix[j].1.free(x));
        assert(!is_bound_by(h.prefix.subrange(0, j), x)) by {
            let front = h.prefix.subrange(0, j);
            if is_bound_by(front, x) {
                let k = choose|k: int| 0 <= k < front.len() && (#[trigger] front[k]).0.contains(x);
                assert(h.prefix[k].0.contains(x));
            }
        }
        assert(reads_outer(h.prefix, x));
    }
    lemma_live_in(h.prefix, x);
}

/// Whether no value of the bindings calls the function.
pub open spec fn none_calls(bs: Seq<(Seq<Name>, Node)>, f: FunctionID) -> bool {
    forall|i: int| 0 <= i < bs.len() ==> !(#[trigger] bs[i]).1.calls(f)
}

/// The bindings before the recursion do not call the loop.
proof fn lemma_prefix_calls(n: Node, f: FunctionID, acc: Seq<(Seq<Name>, Node)>)
    requires
        none_calls(acc, f),
    ensures
        none_calls(split_spine(n, f, acc).0, f),
    decreases n,
{
    if let Node::Let { pattern, value, body } = n {
        if !value.calls(f) {
            let next = acc.push((pattern, *value));
            assert(none_calls(next, f)) by {
                assert forall|i: int| 0 <= i < next.len() implies !(#[trigger] next[i]).1.calls(
                    f,
                ) by {
                    if i < acc.len() {
                        assert(next[i] == acc[i]);
                    }
                }
            }
            lemma_prefix_calls(*body, f, next);
        }
    }
}

/// Chained bindings call what their values or the tail call.
proof fn lemma_chained_calls(bs: Seq<(Seq<Name>, Node)>, tail: Node, f: FunctionID)
    requires
        none_calls(bs, f),
        !tail.calls(f),
    ensures
        !crate::shadowing::chained(bs, tail).calls(f),
    decreases bs.len(),
{
    if bs.len() > 0 {
        let last = bs.last();
        let inner = Node::Let {
            pattern: last.0,
            value: Box::new(last.1),
            body: Box::new(tail),
        };
        assert(bs[bs.len() - 1] == last);
        assert(inner.kids() =~= seq![last.1, tail]);
        assert(!inner.calls(f));
        assert forall|i: int| 0 <= i < bs.drop_last().len() implies !(
        #[trigger] bs.drop_last()[i]).1.calls(f) by {
            assert(bs[i] == bs.drop_last()[i]);
        }
        lemma_chained_calls(bs.drop_last(), inner, f);
    }
}

/// A step that is hoisted out of a loop never calls the loop, so it is not recursive.
pub proof fn law_step_never_loops(
    p: Prog,
    f: FunctionID,
    path: Seq<Branch>,
    vars: Vars,
    n: Node,
)
    requires
        hoist_from(p, f, path, vars, n) is Some,
    ensures
        !step_helper(p.func(f), hoist_from(p, f, path, vars, n)->0).body.calls(f),
{
    let h = hoist_from(p, f, path, vars, n)->0;
    let outs = names_in(h.live_out);
    lemma_prefix_calls(n, f, Seq::empty());
    let tail = step_result(outs);
    assert(!tail.calls(f)) by {
        if outs.len() == 1 {
            assert(tail.kids().len() == 0);
        } else {
            assert(tail.kids() =~= as_vars(outs));
            assert forall|i: int| 0 <= i < tail.kids().len() implies !(
            #[trigger] tail.kids()[i]).calls(f) by {
                assert(tail.kids()[i].kids().len() == 0);
            }
        }
    }
    lemma_chained_calls(h.prefix, tail, f);
}

/// Hoisting the body of a loop leaves every other function as it is, and of the loop
/// all but its body; a step that is added gets a number that no function has.
pub proof fn law_hoisting_changes_the_loop_only(p: Prog, f: FunctionID)
    ensures
        crate::splitting::changes_only(p, loop_hoisted(p, f), f),
        loop_hoisted(p, f).functions.len() <= p.functions.len() + 1,
{
    let q = loop_hoisted(p, f);
    if q != p {
        let h = hoist_of(p, f)->0;
        let id = crate::segments::fresh_id(p)->0;
        let g = step_helper(p.func(f), h);
        lemma_still_there(p, f, id, g);
        let i = crate::program::slot(p.functions, f)->0;
        assert(crate::program::is_slot(p.functions, f, i));
        let body = spliced(p.func(f).body, h.path, step_call(p.func(f), h, id));
        assert(q.functions == p.functions.push((id, g)).update(
            i,
            (f, Func { body, ..p.functions[i].1 }),
        ));
    }
}

/// A function that is none of the loops stays as it is while they are hoisted.
proof fn lemma_others_stay(p: Prog, ids: Seq<FunctionID>, id: FunctionID)
    requires
        p.has(id),
        !ids.contains(id),
    ensures
        all_hoisted(p, ids).has(id),
        all_hoisted(p, ids).func(id) == p.func(id),
    decreases ids.len(),
{
    if ids.len() > 0 {
        let front = ids.drop_last();
        let q = all_hoisted(p, front);
        assert(!front.contains(id)) by {
            if front.contains(id) {
                let k = choose|k: int| 0 <= k < front.len() && front[k] == id;
                assert(ids[k] == id);
            }
        }
        lemma_others_stay(p, front, id);
        assert(ids[ids.len() - 1] == ids.last());
        law_hoisting_changes_the_loop_only(q, ids.last());
        crate::splitting::lemma_function_kept(q, loop_hoisted(q, ids.last()), ids.last(), id);
    }
}

/// The loops are among the functions.
proof fn lemma_loops(p: Prog, fs: Seq<(FunctionID, Func)>, id: FunctionID)
    requires
        loops_of(p, fs).contains(id),
    ensures
        exists|i: int|
            0 <= i < fs.len() && (#[trigger] fs[i]).0 == id && is_extractable(p, fs[i].1),
    decreases fs.len(),
{
    if fs.len() > 0 {
        let before = loops_of(p, fs.drop_last());
        let all = loops_of(p, fs);
        let k = choose|k: int| 0 <= k < all.len() && all[k] == id;
        if k < before.len() {
            assert(before[k] == id);
            lemma_loops(p, fs.drop_last(), id);
            let i = choose|i: int|
                0 <= i < fs.drop_last().len() && (#[trigger] fs.drop_last()[i]).0 == id
                    && is_extractable(p, fs.drop_last()[i].1);
            assert(fs[i] == fs.drop_last()[i]);
        } else {
            assert(fs[fs.len() - 1] == fs.last());
        }
    }
}

/// A function that is no loop whose body may be hoisted stays as it is.
pub proof fn law_other_functions_stay(p: Prog, id: FunctionID)
    requires
        p.has(id),
        forall|i: int|
            0 <= i < p.functions.len() && (#[trigger] p.functions[i]).0 == id ==> !is_extractable(
                p,
                p.functions[i].1,
            ),
    ensures
        bodies_hoisted(p).has(id),
        bodies_hoisted(p).func(id) == p.func(id),
{
    let ids = loops_of(p, p.functions);
    if ids.contains(id) {
        lemma_loops(p, p.functions, id);
    }
    lemma_others_stay(p, ids, id);
}

/// Whether a way leads through an expression.
pub open spec fn leads_through(n: Node, path: Seq<Branch>) -> bool
    decreases path.len(),
{
    if path.len() == 0 {
        true
    } else {
        let rest = path.subrange(1, path.len() as int);
        match (path[0], n) {
            (Branch::Let, Node::Let { body, .. }) => leads_through(*body, rest),
            (Branch::Then, Node::If { then_branch, .. }) => leads_through(*then_branch, rest),
            (Branch::Else, Node::If { else_branch, .. }) => leads_through(*else_branch, rest),
            _ => false,
        }
    }
}

/// The way to the chain leads through the expression.
proof fn lemma_found_way(
    p: Prog,
    n: Node,
    f: FunctionID,
    vars: Vars,
    crossed: bool,
    path: Seq<Branch>,
)
    requires
        found_spine(p, n, f, vars, crossed, path) is Some,
    ensures
        ({
            let (way, _vars, _m) = found_spine(p, n, f, vars, crossed, path)->0;
            leads_through(n, way.subrange(path.len() as int, way.len() as int))
        }),
    decreases n,
{
    let (way, _vars, _m) = found_spine(p, n, f, vars, crossed, path)->0;
    law_spine_is_where_it_was_found(p, n, f, vars, crossed, path);
    if crossed && spine_class(n, f) == SpineClass::Spine {
    } else {
        match n {
            Node::Let { pattern, value, body } => {
                let next = scope_behind(vars, pattern, *value, p)->0;
                let more = path.push(Branch::Let);
                law_spine_is_where_it_was_found(p, *body, f, next, crossed, more);
                lemma_found_way(p, *body, f, next, crossed, more);
                lemma_way(way, path, Branch::Let);
            },
            Node::If { then_branch, else_branch, .. } => {
                if then_branch.calls(f) {
                    let more = path.push(Branch::Then);
                    law_spine_is_where_it_was_found(p, *then_branch, f, vars, true, more);
                    lemma_found_way(p, *then_branch, f, vars, true, more);
                    lemma_way(way, path, Branch::Then);
                } else {
                    let more = path.push(Branch::Else);
                    law_spine_is_where_it_was_found(p, *else_branch, f, vars, true, more);
                    lemma_found_way(p, *else_branch, f, vars, true, more);
                    lemma_way(way, path, Branch::Else);
                }
            },
            _ => {},
        }
    }
}

/// What is put in at the end of a way is part of the whole.
proof fn lemma_spliced_calls(n: Node, path: Seq<Branch>, with: Node, id: FunctionID)
    requires
        leads_through(n, path),
        with.calls(id),
    ensures
        spliced(n, path, with).calls(id),
    decreases path.len(),
{
    if path.len() > 0 {
        let rest = path.subrange(1, path.len() as int);
        let r = spliced(n, path, with);
        let t = |m: Node| m.is_call_of(seq![id]);
        match (path[0], n) {
            (Branch::Let, Node::Let { body, .. }) => {
                lemma_spliced_calls(*body, rest, with, id);
                assert(r.kids()[1].any(t));
            },
            (Branch::Then, Node::If { then_branch, .. }) => {
                lemma_spliced_calls(*then_branch, rest, with, id);
                assert(r.kids()[1].any(t));
            },
            (Branch::Else, Node::If { else_branch, .. }) => {
                lemma_spliced_calls(*else_branch, rest, with, id);
                assert(r.kids()[2].any(t));
            },
            _ => {},
        }
        assert(r.any_kid(t));
    }
}

/// Whether the `k`th function of a program is the step of a loop, the `i`th function of
/// the program that it was: it is named after the loop, the loop now calls it, it is
/// generic as the loop is, it does not call the loop, and it belongs to no recursive
/// group. Its body is closed.
pub open spec fn is_step_of(p: Prog, q: Prog, i: int, k: int) -> bool {
    let (loop_id, f) = p.functions[i];
    let (id, step) = q.functions[k];
    &&& 0 <= i < p.functions.len()
    &&& is_extractable(p, f)
    &&& step.name == f.name + ".step"@
    &&& step.module_id == f.module_id
    &&& step.signature.type_params == f.signature.type_params
    &&& step.mutual_group_id is None
    &&& !step.body.calls(loop_id)
    &&& is_closed(step)
    &&& q.functions[i].1.body.calls(id)
}

/// Whether the `k`th function of a program is the step of one of the loops.
pub open spec fn is_step(p: Prog, q: Prog, loops: Seq<FunctionID>, k: int) -> bool {
    exists|i: int| #[trigger] is_step_of(p, q, i, k) && loops.contains(p.functions[i].0)
}

/// Whether a program is another one with the bodies of some of its loops hoisted: the
/// functions that were there keep all but their bodies, and those that are none of the
/// loops their bodies too; each added function has a new number and is the step of one of
/// the loops; and nothing else changes but what is known of the parameters of the steps.
pub open spec fn has_steps(p: Prog, q: Prog, loops: Seq<FunctionID>) -> bool {
    &&& q == (Prog {
        functions: q.functions,
        fn_hascode_params: q.fn_hascode_params,
        fn_bagu_params: q.fn_bagu_params,
        ..p
    })
    &&& p.functions.len() <= q.functions.len()
    &&& crate::dependency_order::numbers(q.functions).no_duplicates()
    &&& forall|i: int|
        0 <= i < p.functions.len() ==> (#[trigger] q.functions[i]).0 == p.functions[i].0
            && q.functions[i].1 == (Func { body: q.functions[i].1.body, ..p.functions[i].1 }) && (
        !loops.contains(p.functions[i].0) ==> q.functions[i] == p.functions[i])
    &&& forall|k: int|
        p.functions.len() <= k < q.functions.len() ==> #[trigger] is_step(p, q, loops, k)
}

/// Hoisting the body out of one more loop.
proof fn lemma_one_more_step(p: Prog, q: Prog, loops: Seq<FunctionID>, i: int)
    requires
        has_steps(p, q, loops),
        0 <= i < p.functions.len(),
        is_extractable(p, p.functions[i].1),
        !loops.contains(p.functions[i].0),
    ensures
        has_steps(p, loop_hoisted(q, p.functions[i].0), loops.push(p.functions[i].0)),
{
    let (f, func) = p.functions[i];
    let r = loop_hoisted(q, f);
    let more = loops.push(f);
    let ns = crate::dependency_order::numbers(q.functions);
    assert(more[loops.len() as int] == f);
    assert forall|x: FunctionID| loops.contains(x) implies #[trigger] more.contains(x) by {
        let m = choose|m: int| 0 <= m < loops.len() && loops[m] == x;
        assert(more[m] == x);
    }
    assert(q.functions[i] == p.functions[i]);
    assert(crate::program::is_slot(q.functions, f, i)) by {
        assert forall|j: int| 0 <= j < i implies (#[trigger] q.functions[j]).0 != f by {
            assert(ns[j] != ns[i]);
        }
    }
    crate::program::lemma_slot(q.functions, f, i);
    assert(q.func(f) == func);
    if r == q {
        assert forall|k: int| p.functions.len() <= k < q.functions.len() implies #[trigger] is_step(
            p,
            r,
            more,
            k,
        ) by {
            assert(is_step(p, q, loops, k));
            let j = choose|j: int| #[trigger]
                is_step_of(p, q, j, k) && loops.contains(p.functions[j].0);
            assert(is_step_of(p, r, j, k) && more.contains(p.functions[j].0));
        }
    } else {
        let h = hoist_of(q, f)->0;
        let id = crate::segments::fresh_id(q)->0;
        let step = step_helper(func, h);
        let last = q.functions.len() as int;
        let body = spliced(func.body, h.path, step_call(func, h, id));
        lemma_still_there(q, f, id, step);
        assert(r.functions == q.functions.push((id, step)).update(i, (f, Func { body, ..func })));
        assert(crate::dependency_order::numbers(r.functions) =~= ns.push(id));
        assert forall|j: int| 0 <= j < last implies (#[trigger] ns[j]) != id by {
            crate::segments::lemma_above(q.functions, j);
        }
        assert(is_step_of(p, r, i, last)) by {
            lemma_new_step(q, f);
        }
        assert forall|k: int| p.functions.len() <= k < r.functions.len() implies #[trigger] is_step(
            p,
            r,
            more,
            k,
        ) by {
            if k < last {
                assert(is_step(p, q, loops, k));
                let j = choose|j: int| #[trigger]
                    is_step_of(p, q, j, k) && loops.contains(p.functions[j].0);
                assert(r.functions[k] == q.functions[k]);
                assert(r.functions[j] == q.functions[j]);
                assert(is_step_of(p, r, j, k) && more.contains(p.functions[j].0));
            } else {
                assert(more.contains(p.functions[i].0));
            }
        }
        assert forall|j: int| 0 <= j < p.functions.len() implies (#[trigger] r.functions[j]).0
            == p.functions[j].0 && r.functions[j].1 == (Func {
            body: r.functions[j].1.body,
            ..p.functions[j].1
        }) && (!more.contains(p.functions[j].0) ==> r.functions[j] == p.functions[j]) by {
            assert(q.functions[j].0 == p.functions[j].0);
        }
    }
}

/// A step that is hoisted out of a loop does not call the loop, which calls it, and is
/// closed.
proof fn lemma_new_step(q: Prog, f: FunctionID)
    requires
        q.has(f),
        hoist_of(q, f) is Some,
        crate::segments::fresh_id(q) is Some,
    ensures
        ({
            let h = hoist_of(q, f)->0;
            let id = crate::segments::fresh_id(q)->0;
            let step = step_helper(q.func(f), h);
            &&& !step.body.calls(f)
            &&& is_closed(step)
            &&& spliced(q.func(f).body, h.path, step_call(q.func(f), h, id)).calls(id)
        }),
{
    let func = q.func(f);
    let start = crate::scope::param_vars(func.signature.parameters);
    let h = hoist_of(q, f)->0;
    let id = crate::segments::fresh_id(q)->0;
    let step = step_helper(func, h);
    let (path, vars, n) = found_spine(q, func.body, f, start, false, Seq::empty())->0;
    lemma_found_way(q, func.body, f, start, false, Seq::empty());
    assert(path.subrange(0, path.len() as int) =~= path);
    law_step_never_loops(q, f, path, vars, n);
    let t = |m: Node| m.is_call_of(seq![id]);
    let call = step_call(func, h, id);
    assert(call.calls(id)) by {
        assert(seq![id][0] == id);
        assert(t(call.kids()[0]));
        assert(call.kids()[0].any(t));
        assert(call.any_kid(t));
    }
    lemma_spliced_calls(func.body, h.path, call, id);
    law_step_is_closed(q, f, path, vars, n);
}

/// The loops stand once each, in the order of the functions.
proof fn lemma_loops_once(p: Prog, fs: Seq<(FunctionID, Func)>)
    requires
        crate::dependency_order::numbers(fs).no_duplicates(),
    ensures
        loops_of(p, fs).no_duplicates(),
    decreases fs.len(),
{
    if fs.len() > 0 {
        let front = fs.drop_last();
        let before = loops_of(p, front);
        let all = loops_of(p, fs);
        let ns = crate::dependency_order::numbers(fs);
        assert(crate::dependency_order::numbers(front) =~= ns.drop_last());
        lemma_loops_once(p, front);
        if all != before {
            assert forall|k: int| 0 <= k < before.len() implies (#[trigger] before[k])
                != fs.last().0 by {
                assert(before.contains(before[k]));
                lemma_loops(p, front, before[k]);
                let i = choose|i: int|
                    0 <= i < front.len() && (#[trigger] front[i]).0 == before[k]
                        && is_extractable(p, front[i].1);
                assert(ns[i] == before[k] && ns[fs.len() - 1] == fs.last().0);
                assert(ns[i] != ns[fs.len() - 1]);
            }
        }
    }
}

/// Hoisting the bodies out of the first loops.
proof fn lemma_all_steps(p: Prog, k: nat)
    requires
        crate::dependency_order::numbers(p.functions).no_duplicates(),
        k <= loops_of(p, p.functions).len(),
    ensures
        has_steps(
            p,
            all_hoisted(p, loops_of(p, p.functions).subrange(0, k as int)),
            loops_of(p, p.functions).subrange(0, k as int),
        ),
    decreases k,
{
    let ids = loops_of(p, p.functions);
    let part = ids.subrange(0, k as int);
    if k > 0 {
        let before = ids.subrange(0, k - 1);
        let f = ids[k - 1];
        lemma_all_steps(p, (k - 1) as nat);
        lemma_loops_once(p, p.functions);
        assert(part.drop_last() =~= before);
        assert(before.push(f) =~= part);
        assert(!before.contains(f)) by {
            if before.contains(f) {
                let m = choose|m: int| 0 <= m < before.len() && before[m] == f;
                assert(ids[m] == ids[k - 1]);
            }
        }
        assert(ids.contains(f));
        lemma_loops(p, p.functions, f);
        let i = choose|i: int|
            0 <= i < p.functions.len() && (#[trigger] p.functions[i]).0 == f && is_extractable(
                p,
                p.functions[i].1,
            );
        lemma_one_more_step(p, all_hoisted(p, before), before, i);
    } else {
        assert(part =~= Seq::empty());
    }
}

/// Hoisting the bodies out of the loops of a program adds steps and nothing else. Each is
/// named after a loop that now calls it, is generic as the loop is, does not call the loop,
/// belongs to no recursive group, and is closed. Of the functions that were there only the loops change, and of these only the
/// bodies.
pub proof fn law_hoisting_adds_steps_only(p: Prog)
    requires
        crate::dependency_order::numbers(p.functions).no_duplicates(),
    ensures
        has_steps(p, bodies_hoisted(p), loops_of(p, p.functions)),
        forall|i: int|
            0 <= i < p.functions.len() && !is_extractable(p, (#[trigger] p.functions[i]).1)
                ==> bodies_hoisted(p).functions[i] == p.functions[i],
{
    let ids = loops_of(p, p.functions);
    let ns = crate::dependency_order::numbers(p.functions);
    lemma_all_steps(p, ids.len());
    assert(ids.subrange(0, ids.len() as int) =~= ids);
    assert forall|i: int|
        0 <= i < p.functions.len() && !is_extractable(p, (#[trigger] p.functions[i]).1) implies
        bodies_hoisted(p).functions[i] == p.functions[i] by {
        if ids.contains(p.functions[i].0) {
            lemma_loops(p, p.functions, p.functions[i].0);
            let j = choose|j: int|
                0 <= j < p.functions.len() && (#[trigger] p.functions[j]).0 == p.functions[i].0
                    && is_extractable(p, p.functions[j].1);
            assert(ns[i] == ns[j]);
        }
        assert(bodies_hoisted(p).functions[i].0 == p.functions[i].0);
    }
}

/// A name that no binding binds keeps its value.
proof fn lemma_after_unbound(
    bs: Seq<(Seq<Name>, Node)>,
    env: crate::meaning::Env,
    m: crate::meaning::Model,
    x: Name,
)
    requires
        !defined_by(bs).contains(x),
    ensures
        crate::meaning::after(bs, env, m)(x) == env(x),
    decreases bs.len(),
{
    if bs.len() > 0 {
        let front = bs.drop_last();
        let e = crate::meaning::after(front, env, m);
        let (a, b, c) = (defined_by(front), bs.last().0, assigned(bs.last().1));
        let all = a + b + c;
        assert(!a.contains(x)) by {
            if a.contains(x) {
                let k = choose|k: int| 0 <= k < a.len() && a[k] == x;
                assert(all[k] == x);
            }
        }
        assert(!b.contains(x)) by {
            if b.contains(x) {
                let k = choose|k: int| 0 <= k < b.len() && b[k] == x;
                assert(all[a.len() + k] == x);
            }
        }
        lemma_after_unbound(front, env, m, x);
        crate::meaning::lemma_bound(e, e, b, crate::meaning::eval(bs.last().1, e, m), x);
    }
}

/// Whether every variable that occurs free in the body of a function is one of its
/// parameters.
pub open spec fn is_strictly_closed(f: Func) -> bool {
    forall|x: Name| #[trigger] f.body.free(x) ==> crate::frame_lemmas::holds_var(
        f.signature.parameters,
        x,
    )
}

/// The call of a step, and what follows it, mean what the chain of bindings meant.
proof fn lemma_step_call_means(
    p: Prog,
    f: FunctionID,
    path: Seq<Branch>,
    vars: Vars,
    n: Node,
    id: FunctionID,
    env: crate::meaning::Env,
    m: crate::meaning::Model,
)
    requires
        hoist_from(p, f, path, vars, n) is Some,
        is_strictly_closed(step_helper(p.func(f), hoist_from(p, f, path, vars, n)->0)),
        crate::meaning::reads_as(
            m,
            id,
            step_helper(p.func(f), hoist_from(p, f, path, vars, n)->0),
        ),
    ensures
        crate::meaning::eval(
            step_call(p.func(f), hoist_from(p, f, path, vars, n)->0, id),
            env,
            m,
        ) == crate::meaning::eval(n, env, m),
{
    let h = hoist_from(p, f, path, vars, n)->0;
    let step = step_helper(p.func(f), h);
    let outs = names_in(h.live_out);
    let ins = names_in(h.live_in);
    let result = step_result(outs);
    let e = crate::meaning::after(h.prefix, env, m);
    law_split_spine_round_trip(n, f, Seq::empty());
    assert(crate::shadowing::chained(Seq::<(Seq<Name>, Node)>::empty(), n) == n);
    crate::meaning::lemma_chained(h.prefix, h.rest, env, m);
    let call = *(step_call(p.func(f), h, id)->Let_value);
    let vs = crate::meaning::values(call, env, m);
    let start = |x: Name| crate::meaning::Val::Nothing;
    let names = crate::meaning::given_names(step);
    assert(call.kids() =~= as_vars(ins));
    assert(names =~= ins);
    let g = crate::meaning::given(step, vs);
    assert(crate::meaning::agree(step.body, g, env)) by {
        assert forall|x: Name| #[trigger] step.body.free(x) && x != "_"@ implies g(x) == env(x) by {
            assert(crate::frame_lemmas::holds_var(step.signature.parameters, x));
            let i = choose|i: int|
                0 <= i < step.signature.parameters.len() && (
                #[trigger] step.signature.parameters[i]).ssa_value == x;
            assert(names[i] == x);
            assert(names.subrange(0, names.len() as int) =~= names);
            assert forall|k: int| 0 <= k < names.len() && #[trigger] names[k] == x implies vs[k]
                == env(x) by {
                assert(call.kids()[k] == Node::Var(x));
            }
            crate::meaning::lemma_given(env, names, vs, start, names.len(), x);
        }
    }
    crate::meaning::lemma_agree(step.body, g, env, m);
    crate::meaning::lemma_chained(h.prefix, result, env, m);
    let r = crate::meaning::eval(result, e, m);
    assert(crate::meaning::eval(call, env, m) == r);
    let later = crate::meaning::bound(env, outs, r);
    let after_scope = scope_behind_all(vars, h.prefix, p)->0;
    lemma_typed_names(live_out(h.prefix, h.rest), after_scope);
    assert(crate::meaning::agree(h.rest, later, e)) by {
        assert forall|x: Name| #[trigger] h.rest.free(x) && x != "_"@ implies later(x) == e(x) by {
            lemma_wanted(Seq::empty(), defined_by(h.prefix), |y: Name| h.rest.free(y), x);
            crate::meaning::lemma_bound(env, env, outs, r, x);
            if outs.contains(x) {
                lemma_result_parts(outs, e, env, m, x);
            } else {
                assert(!defined_by(h.prefix).contains(x));
                lemma_after_unbound(h.prefix, env, m, x);
            }
        }
    }
    crate::meaning::lemma_agree(h.rest, later, e, m);
}

/// What is bound from what a step returns is what the variables have that it returns.
proof fn lemma_result_parts(
    outs: Seq<Name>,
    e: crate::meaning::Env,
    env: crate::meaning::Env,
    m: crate::meaning::Model,
    x: Name,
)
    requires
        outs.contains(x),
        x != "_"@,
    ensures
        crate::meaning::bound(env, outs, crate::meaning::eval(step_result(outs), e, m))(x) == e(x),
{
    let result = step_result(outs);
    let r = crate::meaning::eval(result, e, m);
    if outs.len() == 1 {
        assert(outs[0] == x);
    } else {
        let vs = crate::meaning::values(result, e, m);
        assert(result.kids() =~= as_vars(outs));
        assert(outs.subrange(0, outs.len() as int) =~= outs);
        assert forall|i: int| 0 <= i < outs.len() && #[trigger] outs[i] == x implies
            crate::meaning::part(r, i, outs.len()) == e(x) by {
            crate::meaning::lemma_part_of_tuple(vs, i);
            assert(result.kids()[i] == Node::Var(x));
            assert(vs[i] == e(x));
        }
        crate::meaning::lemma_given_parts(e, outs, r, env, outs.len(), x);
    }
}

/// What means the same at the end of a way means the same in the whole.
proof fn lemma_spliced_means(
    n: Node,
    path: Seq<Branch>,
    a: Node,
    b: Node,
    env: crate::meaning::Env,
    m: crate::meaning::Model,
)
    requires
        leads_through(n, path),
        forall|e: crate::meaning::Env| #[trigger]
            crate::meaning::eval(a, e, m) == crate::meaning::eval(b, e, m),
    ensures
        crate::meaning::eval(spliced(n, path, a), env, m) == crate::meaning::eval(
            spliced(n, path, b),
            env,
            m,
        ),
    decreases path.len(),
{
    if path.len() > 0 {
        let rest = path.subrange(1, path.len() as int);
        match (path[0], n) {
            (Branch::Let, Node::Let { pattern, value, body }) => {
                let e = crate::meaning::bound(
                    env,
                    pattern,
                    crate::meaning::eval(*value, env, m),
                );
                lemma_spliced_means(*body, rest, a, b, e, m);
            },
            (Branch::Then, Node::If { then_branch, .. }) => {
                lemma_spliced_means(*then_branch, rest, a, b, env, m);
            },
            (Branch::Else, Node::If { else_branch, .. }) => {
                lemma_spliced_means(*else_branch, rest, a, b, env, m);
            },
            _ => {},
        }
    }
}

/// The body of a loop with a step hoisted out of it means what it meant, wherever the step
/// is taken for its body: inlining the step at its call gives the loop back.
pub proof fn law_hoisting_keeps_what_a_loop_computes(
    p: Prog,
    f: FunctionID,
    id: FunctionID,
    env: crate::meaning::Env,
    m: crate::meaning::Model,
)
    requires
        hoist_of(p, f) is Some,
        is_strictly_closed(step_helper(p.func(f), hoist_of(p, f)->0)),
        crate::meaning::reads_as(m, id, step_helper(p.func(f), hoist_of(p, f)->0)),
    ensures
        crate::meaning::eval(
            spliced(
                p.func(f).body,
                hoist_of(p, f)->0.path,
                step_call(p.func(f), hoist_of(p, f)->0, id),
            ),
            env,
            m,
        ) == crate::meaning::eval(p.func(f).body, env, m),
{
    let func = p.func(f);
    let start = crate::scope::param_vars(func.signature.parameters);
    let h = hoist_of(p, f)->0;
    let (path, vars, n) = found_spine(p, func.body, f, start, false, Seq::empty())->0;
    let call = step_call(func, h, id);
    lemma_found_way(p, func.body, f, start, false, Seq::empty());
    law_spine_is_where_it_was_found(p, func.body, f, start, false, Seq::empty());
    assert(path.subrange(0, path.len() as int) =~= path);
    assert forall|e: crate::meaning::Env| #[trigger]
        crate::meaning::eval(call, e, m) == crate::meaning::eval(n, e, m) by {
        lemma_step_call_means(p, f, path, vars, n, id, e, m);
    }
    lemma_spliced_means(func.body, path, call, n, env, m);
}

/// Whether each function that was there means in another program what it meant, wherever
/// the added functions are taken for their bodies, and these are closed.
pub open spec fn keeps_meaning(p: Prog, q: Prog) -> bool {
    forall|i: int, env: crate::meaning::Env, m: crate::meaning::Model|
        0 <= i < p.functions.len() && crate::meaning::reads_from(m, q, p.functions.len())
            && all_closed_from(q, p.functions.len()) ==> #[trigger] crate::meaning::eval(
            q.functions[i].1.body,
            env,
            m,
        ) == crate::meaning::eval(p.functions[i].1.body, env, m)
}

/// Whether the functions from the `k`th on are closed.
pub open spec fn all_closed_from(q: Prog, k: nat) -> bool {
    forall|i: int| k <= i < q.functions.len() ==> is_strictly_closed((#[trigger] q.functions[i]).1)
}

/// Hoisting the body out of one more loop keeps what the functions mean.
proof fn lemma_one_more_means(p: Prog, q: Prog, loops: Seq<FunctionID>, i: int)
    requires
        has_steps(p, q, loops),
        keeps_meaning(p, q),
        0 <= i < p.functions.len(),
        !loops.contains(p.functions[i].0),
    ensures
        keeps_meaning(p, loop_hoisted(q, p.functions[i].0)),
{
    let (f, func) = p.functions[i];
    let r = loop_hoisted(q, f);
    let ns = crate::dependency_order::numbers(q.functions);
    assert(q.functions[i] == p.functions[i]);
    assert(crate::program::is_slot(q.functions, f, i)) by {
        assert forall|j: int| 0 <= j < i implies (#[trigger] q.functions[j]).0 != f by {
            assert(ns[j] != ns[i]);
        }
    }
    crate::program::lemma_slot(q.functions, f, i);
    if r != q {
        let h = hoist_of(q, f)->0;
        let id = crate::segments::fresh_id(q)->0;
        let step = step_helper(func, h);
        let last = q.functions.len() as int;
        let body = spliced(func.body, h.path, step_call(func, h, id));
        lemma_still_there(q, f, id, step);
        assert(r.functions == q.functions.push((id, step)).update(i, (f, Func { body, ..func })));
        assert forall|j: int, env: crate::meaning::Env, m: crate::meaning::Model|
            0 <= j < p.functions.len() && crate::meaning::reads_from(m, r, p.functions.len())
                && all_closed_from(r, p.functions.len()) implies #[trigger] crate::meaning::eval(
            r.functions[j].1.body,
            env,
            m,
        ) == crate::meaning::eval(p.functions[j].1.body, env, m) by {
            assert(r.functions[last] == (id, step));
            if j == i {
                law_hoisting_keeps_what_a_loop_computes(q, f, id, env, m);
            } else {
                assert forall|k: int| p.functions.len() <= k < q.functions.len() implies
                    crate::meaning::reads_as(
                    m,
                    (#[trigger] q.functions[k]).0,
                    q.functions[k].1,
                ) && is_strictly_closed(q.functions[k].1) by {
                    assert(r.functions[k] == q.functions[k]);
                }
                assert(crate::meaning::reads_from(m, q, p.functions.len()));
                assert(all_closed_from(q, p.functions.len()));
                assert(r.functions[j] == q.functions[j]);
                assert(crate::meaning::eval(q.functions[j].1.body, env, m)
                    == crate::meaning::eval(p.functions[j].1.body, env, m));
            }
        }
    }
}

/// Hoisting the bodies out of the first loops keeps what the functions mean.
proof fn lemma_all_mean(p: Prog, k: nat)
    requires
        crate::dependency_order::numbers(p.functions).no_duplicates(),
        k <= loops_of(p, p.functions).len(),
    ensures
        keeps_meaning(p, all_hoisted(p, loops_of(p, p.functions).subrange(0, k as int))),
    decreases k,
{
    let ids = loops_of(p, p.functions);
    let part = ids.subrange(0, k as int);
    if k > 0 {
        let before = ids.subrange(0, k - 1);
        let f = ids[k - 1];
        lemma_all_mean(p, (k - 1) as nat);
        lemma_all_steps(p, (k - 1) as nat);
        lemma_loops_once(p, p.functions);
        assert(part.drop_last() =~= before);
        assert(!before.contains(f)) by {
            if before.contains(f) {
                let m = choose|m: int| 0 <= m < before.len() && before[m] == f;
                assert(ids[m] == ids[k - 1]);
            }
        }
        assert(ids.contains(f));
        lemma_loops(p, p.functions, f);
        let i = choose|i: int|
            0 <= i < p.functions.len() && (#[trigger] p.functions[i]).0 == f && is_extractable(
                p,
                p.functions[i].1,
            );
        lemma_one_more_means(p, all_hoisted(p, before), before, i);
    } else {
        assert(part =~= Seq::empty());
    }
}

/// Hoisting the bodies out of the loops of a program keeps what every function of it
/// computes, wherever the steps are taken for their bodies, and these are closed.
pub proof fn law_hoisting_keeps_what_functions_compute(p: Prog)
    requires
        crate::dependency_order::numbers(p.functions).no_duplicates(),
    ensures
        keeps_meaning(p, bodies_hoisted(p)),
{
    let ids = loops_of(p, p.functions);
    lemma_all_mean(p, ids.len());
    assert(ids.subrange(0, ids.len() as int) =~= ids);
}

} // verus!
