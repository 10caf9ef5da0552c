//! Forwarding of a function's precondition by its callers.
//!
//! A function that carries a precondition is called with one more argument. A
//! specification that stands in the same module as the precondition's own
//! specification, and that hands its parameters on, carries the precondition
//! too and forwards it. Every other caller leaves a placeholder.

use crate::ir::{IRNode, Node};
use crate::program::{Func, Function, Parameter, Prog, Program};
use crate::text::{append, begins_with, has_text, is_text, join, trim_end};
use crate::threading::{find_callers, put_arg, Pick};
use crate::traverse::{contains_name, find_node, Test};
use crate::types::{FunctionID, ModuleID, Name};
use vstd::prelude::*;

verus! {

/// Whether each of the expressions is a variable.
pub open spec fn all_vars(args: Seq<Node>) -> bool {
    forall|i: int| 0 <= i < args.len() ==> (#[trigger] args[i]) is Var
}

/// The variables that the expressions are.
pub open spec fn var_names(args: Seq<Node>) -> Seq<Name> {
    Seq::new(args.len(), |i: int| args[i]->Var_0)
}

/// Whether the expression is a call of the function on variables alone.
pub open spec fn is_var_call(n: Node, target: FunctionID) -> bool {
    n matches Node::Call { function, args, .. } && function == target && all_vars(args)
}

/// The variables that the first such call in an expression hands to the function.
pub open spec fn var_args(body: Node, target: FunctionID) -> Option<Seq<Name>> {
    match body.first(|n: Node| is_var_call(n, target)) {
        Some(Node::Call { args, .. }) => Some(var_names(args)),
        _ => None,
    }
}

/// The test for a call of a function on variables alone.
struct VarCall {
    target: FunctionID,
}

impl Test for VarCall {
    closed spec fn holds(&self, n: Node) -> bool {
        is_var_call(n, self.target)
    }

    fn check(&self, n: &IRNode) -> (r: bool) {
        match n {
            IRNode::Call { function, args, .. } => *function == self.target && only_vars(args),
            _ => false,
        }
    }
}

/// Whether each of the expressions is a variable.
fn only_vars(args: &Vec<IRNode>) -> (r: bool)
    ensures
        r == all_vars(IRNode::views(args@)),
{
    let mut i: usize = 0;
    while i < args.len()
        invariant
            i <= args.len(),
            forall|j: int| 0 <= j < i ==> (#[trigger] args@[j])@ is Var,
        decreases args.len() - i,
    {
        match &args[i] {
            IRNode::Var(_) => {},
            _ => {
                assert(!(IRNode::views(args@)[i as int] is Var));
                return false;
            },
        }
        i += 1;
    }
    true
}

/// The variables that the expressions are.
fn names_of(args: &Vec<IRNode>) -> (r: Vec<String>)
    requires
        all_vars(IRNode::views(args@)),
    ensures
        crate::ir::names(r@) == var_names(IRNode::views(args@)),
{
    let mut out: Vec<String> = Vec::new();
    let mut i: usize = 0;
    while i < args.len()
        invariant
            i <= args.len(),
            all_vars(IRNode::views(args@)),
            out@.len() == i,
            forall|j: int| 0 <= j < i ==> (#[trigger] out@[j])@ == args@[j]@->Var_0,
        decreases args.len() - i,
    {
        assert(IRNode::views(args@)[i as int] is Var);
        match &args[i] {
            IRNode::Var(v) => {
                out.push(v.clone());
            },
            _ => {
                out.push(String::new());
            },
        }
        i += 1;
    }
    assert(crate::ir::names(out@) =~= var_names(IRNode::views(args@)));
    out
}

/// The variables that the first call on variables alone hands to the function.
pub fn call_arg_names(body: &IRNode, target: FunctionID) -> (r: Option<Vec<String>>)
    ensures
        match r {
            Some(v) => var_args(body@, target) == Some(crate::ir::names(v@)),
            None => var_args(body@, target) is None,
        },
{
    let t = VarCall { target };
    assert((|n: Node| t.holds(n)) =~= (|n: Node| is_var_call(n, target)));
    match find_node(body, &t) {
        Some(IRNode::Call { args, .. }) => Some(names_of(args)),
        _ => None,
    }
}

/// The names of the parameters.
pub open spec fn param_names(params: Seq<crate::program::Param>) -> Seq<Name> {
    Seq::new(params.len(), |i: int| params[i].name)
}

/// The names of the parameters.
pub fn parameter_names(params: &Vec<Parameter>) -> (r: Vec<String>)
    ensures
        crate::ir::names(r@) == param_names(Parameter::views(params@)),
{
    let mut out: Vec<String> = Vec::new();
    let mut i: usize = 0;
    while i < params.len()
        invariant
            i <= params.len(),
            out@.len() == i,
            forall|j: int| 0 <= j < i ==> (#[trigger] out@[j])@ == params@[j].name@,
        decreases params.len() - i,
    {
        out.push(params[i].name.clone());
        i += 1;
    }
    assert(crate::ir::names(out@) =~= param_names(Parameter::views(params@)));
    out
}

/// Whether each name of the first list is in the second.
pub open spec fn all_among(a: Seq<Name>, b: Seq<Name>) -> bool {
    forall|i: int| 0 <= i < a.len() ==> b.contains(#[trigger] a[i])
}

/// Whether each name of the first list is in the second.
pub fn each_among(a: &Vec<String>, b: &Vec<String>) -> (r: bool)
    ensures
        r == all_among(crate::ir::names(a@), crate::ir::names(b@)),
{
    let mut i: usize = 0;
    while i < a.len()
        invariant
            i <= a.len(),
            forall|j: int| 0 <= j < i ==> crate::ir::names(b@).contains((#[trigger] a@[j])@),
        decreases a.len() - i,
    {
        if !contains_name(b, &a[i]) {
            assert(!crate::ir::names(b@).contains(crate::ir::names(a@)[i as int]));
            return false;
        }
        i += 1;
    }
    true
}

/// Whether a function is the specification of the named one or a companion of
/// that, and stands in a module of specifications for the given module.
pub open spec fn is_companion(p: Prog, base: Name, module_name: Name) -> spec_fn(
    FunctionID,
    Func,
) -> bool {
    |id: FunctionID, f: Func|
        (f.name == base + "_spec"@ || crate::text::begins(f.name, base + "_spec"@ + "."@))
            && p.has_module(f.module_id) && crate::text::trimmed_end(
            p.module(f.module_id).name,
            "_specs"@,
        ) == module_name
}

/// The module of the specification of the named function.
pub open spec fn spec_module(p: Prog, base: Name, module_name: Name) -> Option<ModuleID> {
    match crate::threading::first_selected(p.functions, is_companion(p, base, module_name)) {
        Some(id) => Some(p.func(id).module_id),
        None => None,
    }
}

/// The choice of the companions of a specification.
struct Companions<'a> {
    program: &'a Program,
    base: &'a String,
    module_name: &'a String,
}

impl<'a> Pick for Companions<'a> {
    closed spec fn picks(&self, id: FunctionID, f: Func) -> bool {
        is_companion(self.program@, self.base@, self.module_name@)(id, f)
    }

    fn pick(&self, id: FunctionID, f: &Function) -> (r: bool) {
        let spec_name = append(self.base.as_str(), "_spec");
        let prefix = append(spec_name.as_str(), ".");
        proof {
            reveal_strlit("_specs");
            crate::program::lemma_same_slots(
                self.program.modules@,
                self.program@.modules,
                f.module_id,
            );
        }
        match crate::program::slot_of(&self.program.modules, f.module_id) {
            Some(_) => (f.name == spec_name || begins_with(f.name.as_str(), prefix.as_str()))
                && trim_end(self.program.module(f.module_id).name.as_str(), "_specs")
                == *self.module_name,
            None => false,
        }
    }
}

/// The module of the specification of the named function.
pub fn find_spec_module(program: &Program, base: &String, module_name: &String) -> (r: Option<
    ModuleID,
>)
    ensures
        r == spec_module(program@, base@, module_name@),
{
    let t = Companions { program, base, module_name };
    assert((|k: FunctionID, f: Func| t.picks(k, f)) =~= is_companion(
        program@,
        base@,
        module_name@,
    ));
    match crate::threading::select_first(program, &t) {
        Some(id) => Some(program.function(id).module_id),
        None => None,
    }
}

/// The arguments over which a caller states the precondition of a function that
/// it calls; there are none where the caller only leaves a placeholder.
pub open spec fn forwarded_args(
    f: Func,
    target: FunctionID,
    module: Option<ModuleID>,
) -> Option<Seq<Name>> {
    if Some(f.module_id) == module && crate::text::occurs(f.name, "_spec"@) {
        match var_args(f.body, target) {
            Some(args) => if all_among(args, param_names(f.signature.parameters)) {
                Some(args)
            } else {
                None
            },
            None => None,
        }
    } else {
        None
    }
}

/// Whether a list of proof parameters has one of the name.
pub open spec fn has_param(params: Seq<(Name, Name)>, name: Name) -> bool {
    exists|i: int| 0 <= i < params.len() && (#[trigger] params[i]).0 == name
}

/// The program with one caller handing on the precondition of a function.
pub open spec fn forwarded_by(
    p: Prog,
    caller: FunctionID,
    target: FunctionID,
    hook: Name,
    module: Option<ModuleID>,
    arity: nat,
) -> Prog {
    match forwarded_args(p.func(caller), target, module) {
        Some(args) => {
            let q = if has_param(p.proof_params_of(caller), "hpre"@) {
                p
            } else {
                p.with_proof_param(
                    caller,
                    "hpre"@,
                    hook + " "@ + crate::text::joined(args, " "@),
                )
            };
            q.with_arg(caller, target, arity, Node::Var("hpre"@))
        },
        None => p.with_arg(caller, target, arity, crate::threading::placeholder()),
    }
}

/// The program with each of some callers handing on the precondition.
pub open spec fn forwarded_in(
    p: Prog,
    callers: Seq<FunctionID>,
    target: FunctionID,
    hook: Name,
    module: Option<ModuleID>,
    arity: nat,
) -> Prog
    decreases callers.len(),
{
    if callers.len() == 0 {
        p
    } else {
        forwarded_by(
            forwarded_in(p, callers.drop_last(), target, hook, module, arity),
            callers.last(),
            target,
            hook,
            module,
            arity,
        )
    }
}

/// Whether a function carries a proof parameter of the name.
pub fn carries(program: &Program, id: FunctionID, name: &str) -> (r: bool)
    ensures
        r == has_param(program@.proof_params_of(id), name@),
{
    proof {
        crate::program::lemma_same_slots(program.fn_proof_params@, program@.fn_proof_params, id);
    }
    match crate::program::slot_of(&program.fn_proof_params, id) {
        Some(k) => {
            let list = &program.fn_proof_params[k].1;
            let ghost view = crate::program::name_pairs(list@);
            assert(program@.proof_params_of(id) == view);
            let mut i: usize = 0;
            while i < list.len()
                invariant
                    i <= list.len(),
                    view == crate::program::name_pairs(list@),
                    program@.proof_params_of(id) == view,
                    forall|j: int| 0 <= j < i ==> (#[trigger] view[j]).0 != name@,
                decreases list.len() - i,
            {
                if is_text(list[i].0.as_str(), name) {
                    assert(view[i as int].0 == name@);
                    return true;
                }
                i += 1;
            }
            false
        },
        None => false,
    }
}

/// Lets one caller hand on the precondition of a function.
fn forward_by(
    program: &mut Program,
    caller: FunctionID,
    target: FunctionID,
    hook: &String,
    module: Option<ModuleID>,
    arity: usize,
)
    requires
        old(program)@.has(caller),
    ensures
        final(program)@ == forwarded_by(
            old(program)@,
            caller,
            target,
            hook@,
            module,
            arity as nat,
        ),
        final(program)@.same_shape(old(program)@),
{
    let ghost start = program@;
    let f = program.function(caller);
    let same_module = match module {
        Some(m) => m == f.module_id,
        None => false,
    };
    let mut found: Option<Vec<String>> = None;
    if same_module && has_text(f.name.as_str(), "_spec") {
        if let Some(args) = call_arg_names(&f.body, target) {
            let params = parameter_names(&f.signature.parameters);
            if each_among(&args, &params) {
                found = Some(args);
            }
        }
    }
    match found {
        Some(args) => {
            assert(forwarded_args(start.func(caller), target, module) == Some(
                crate::ir::names(args@),
            ));
            if !carries(program, caller, "hpre") {
                let list = join(&args, " ");
                let prop = append(append(hook.as_str(), " ").as_str(), list.as_str());
                program.add_proof_param(caller, "hpre".to_owned(), prop);
            }
            assert(program@.functions == start.functions);
            let extra = IRNode::Var("hpre".to_owned());
            put_arg(program, caller, target, arity, &extra);
        },
        None => {
            assert(forwarded_args(start.func(caller), target, module) is None);
            let extra = IRNode::Abort { code: None };
            put_arg(program, caller, target, arity, &extra);
        },
    }
}

/// The program with each caller of a function handing on its precondition.
pub open spec fn forwarded(
    p: Prog,
    target: FunctionID,
    hook: Name,
    module: Option<ModuleID>,
) -> Prog {
    forwarded_in(
        p,
        crate::threading::callers_of(p, target),
        target,
        hook,
        module,
        p.arity(target),
    )
}

/// Lets each caller of a function hand on its precondition.
pub fn forward(
    program: &mut Program,
    target: FunctionID,
    hook: &String,
    module: Option<ModuleID>,
)
    requires
        old(program)@.has(target),
    ensures
        final(program)@ == forwarded(old(program)@, target, hook@, module),
        final(program)@.same_shape(old(program)@),
{
    let ghost start = program@;
    let arity: usize = program.function(target).signature.parameters.len();
    let callers = find_callers(program, target);
    let mut i: usize = 0;
    assert(callers@.subrange(0, 0) =~= Seq::empty());
    while i < callers.len()
        invariant
            i <= callers.len(),
            forall|k: int| 0 <= k < callers@.len() ==> start.has(#[trigger] callers@[k]),
            program@ == forwarded_in(
                start,
                callers@.subrange(0, i as int),
                target,
                hook@,
                module,
                arity as nat,
            ),
            program@.same_shape(start),
        decreases callers.len() - i,
    {
        proof {
            program@.lemma_same_shape(start);
            let next = callers@.subrange(0, i + 1);
            assert(next.drop_last() =~= callers@.subrange(0, i as int));
            assert(next.last() == callers@[i as int]);
        }
        forward_by(program, callers[i], target, hook, module, arity);
        i += 1;
    }
    assert(callers@.subrange(0, i as int) =~= callers@);
}

/// Whether the last of the arguments is a placeholder.
pub open spec fn owes_proof(args: Seq<Node>) -> bool {
    args.len() > 0 && args.last() is Abort
}

/// Whether the expression calls one of the functions with a placeholder as its
/// last argument.
pub open spec fn is_entry_call(n: Node, ids: Seq<FunctionID>) -> bool {
    n matches Node::Call { function, args, .. } && ids.contains(function) && owes_proof(args)
}

/// The test for a call that owes a proof.
pub struct EntryCall<'a> {
    pub ids: &'a Vec<FunctionID>,
}

impl<'a> Test for EntryCall<'a> {
    open spec fn holds(&self, n: Node) -> bool {
        is_entry_call(n, self.ids@)
    }

    fn check(&self, n: &IRNode) -> (r: bool) {
        match n {
            IRNode::Call { function, args, .. } => crate::traverse::contains_id(
                self.ids,
                *function,
            ) && last_is_placeholder(args),
            _ => false,
        }
    }
}

/// Whether the last of the arguments is a placeholder.
pub fn last_is_placeholder(args: &Vec<IRNode>) -> (r: bool)
    ensures
        r == owes_proof(IRNode::views(args@)),
{
    assert(IRNode::views(args@).len() == args@.len());
    if args.len() == 0 {
        return false;
    }
    assert(IRNode::views(args@).last() == args@[args@.len() - 1]@);
    match &args[args.len() - 1] {
        IRNode::Abort { .. } => true,
        _ => false,
    }
}

/// A variable calls nothing.
proof fn lemma_variable_calls_nothing(x: Name, target: FunctionID, arity: nat)
    ensures
        !crate::threading::has_bare_call(Node::Var(x), target, arity),
        !crate::threading::has_bare_call(crate::threading::placeholder(), target, arity),
{
    let p = |k: Node| crate::threading::is_bare_call(k, target, arity);
    let n = Node::Var(x);
    assert(n.kids().len() == 0);
    assert(!n.any_kid(p));
    let h = crate::threading::placeholder();
    assert(h.kids().len() == 0);
    assert(!h.any_kid(p));
}

/// Where some callers hand on a precondition, none of them is left with a call without it.
proof fn lemma_forwarded_in(
    p: Prog,
    callers: Seq<FunctionID>,
    target: FunctionID,
    hook: Name,
    module: Option<ModuleID>,
    arity: nat,
    id: FunctionID,
    env: crate::meaning::Env,
    m: crate::meaning::Model,
)
    requires
        forall|k: int| 0 <= k < callers.len() ==> p.has(#[trigger] callers[k]),
        p.has(id),
    ensures
        ({
            let q = forwarded_in(p, callers, target, hook, module, arity);
            &&& q.same_shape(p)
            &&& q.has(id)
            &&& callers.contains(id) ==> !crate::threading::has_bare_call(
                q.func(id).body,
                target,
                arity,
            )
            &&& !callers.contains(id) ==> q.func(id) == p.func(id)
            &&& crate::threading::takes_no_notice(m, target, arity) ==> crate::meaning::eval(
                q.func(id).body,
                env,
                m,
            ) == crate::meaning::eval(p.func(id).body, env, m)
        }),
    decreases callers.len(),
{
    if callers.len() > 0 {
        let init = callers.drop_last();
        let last = callers.last();
        assert forall|k: int| 0 <= k < init.len() implies p.has(#[trigger] init[k]) by {
            assert(init[k] == callers[k]);
        }
        assert(p.has(callers[callers.len() - 1]));
        lemma_forwarded_in(p, init, target, hook, module, arity, id, env, m);
        let q = forwarded_in(p, init, target, hook, module, arity);
        q.lemma_same_shape(p);
        let args = forwarded_args(q.func(last), target, module);
        let extra = match args {
            Some(_) => Node::Var("hpre"@),
            None => crate::threading::placeholder(),
        };
        let q1 = match args {
            Some(xs) => if has_param(q.proof_params_of(last), "hpre"@) {
                q
            } else {
                q.with_proof_param(
                    last,
                    "hpre"@,
                    hook + " "@ + crate::text::joined(xs, " "@),
                )
            },
            None => q,
        };
        assert(q1.functions == q.functions);
        let old_body = q.func(last).body;
        let body = crate::threading::extra_args(old_body, target, arity, extra);
        q1.lemma_with_body(last, body);
        assert(forwarded_by(q, last, target, hook, module, arity) == q1.with_body(last, body));
        lemma_variable_calls_nothing("hpre"@, target, arity);
        crate::threading::law_every_call_is_given_its_argument(old_body, target, arity, extra);
        if crate::threading::takes_no_notice(m, target, arity) {
            crate::threading::law_new_arguments_change_nothing_else(
                old_body,
                target,
                arity,
                extra,
                env,
                m,
            );
        }
        assert(callers.contains(id) <==> init.contains(id) || last == id) by {
            if callers.contains(id) {
                let j = choose|j: int| 0 <= j < callers.len() && callers[j] == id;
                if j < init.len() {
                    assert(init[j] == id);
                }
            }
            if init.contains(id) {
                let j = choose|j: int| 0 <= j < init.len() && init[j] == id;
                assert(callers[j] == id);
            }
            assert(callers[callers.len() - 1] == last);
        }
    }
}

/// A function that calls another one is among its callers.
proof fn lemma_is_caller(fs: Seq<(FunctionID, Func)>, target: FunctionID, i: int)
    requires
        0 <= i < fs.len(),
        fs[i].0 != target,
        fs[i].1.body.calls(target),
    ensures
        crate::threading::selected(fs, crate::threading::calling(target)).contains(fs[i].0),
    decreases fs.len(),
{
    let all = crate::threading::selected(fs, crate::threading::calling(target));
    let before = crate::threading::selected(fs.drop_last(), crate::threading::calling(target));
    if i == fs.len() - 1 {
        assert(all.last() == fs[i].0);
        assert(all[all.len() - 1] == fs[i].0);
    } else {
        lemma_is_caller(fs.drop_last(), target, i);
        let j = choose|j: int| 0 <= j < before.len() && before[j] == fs[i].0;
        assert(all[j] == before[j]);
    }
}

/// What calls a function without the argument calls the function.
proof fn lemma_bare_call_calls(n: Node, target: FunctionID, arity: nat)
    requires
        crate::threading::has_bare_call(n, target, arity),
    ensures
        n.calls(target),
    decreases n,
{
    n.lemma_kids_decrease();
    let p = |k: Node| crate::threading::is_bare_call(k, target, arity);
    let ids = seq![target];
    let c = |k: Node| k.is_call_of(ids);
    assert(ids[0] == target);
    if p(n) {
        assert(c(n));
        assert(n.calls(target));
    } else {
        let i = choose|i: int| 0 <= i < n.kids().len() && (#[trigger] n.kids()[i]).any(p);
        lemma_bare_call_calls(n.kids()[i], target, arity);
        assert(n.kids()[i].any(c));
        assert(n.any_kid(c));
        assert(n.calls(target));
    }
}

/// Where the precondition of a function is handed on, every other function gives each of
/// its calls of the function, with as many arguments as the function has parameters, one
/// more. Nothing but these arguments changes: where the function takes no notice of them,
/// every function computes what it did.
pub proof fn law_every_caller_gives_a_proof(
    p: Prog,
    target: FunctionID,
    hook: Name,
    module: Option<ModuleID>,
    id: FunctionID,
    env: crate::meaning::Env,
    m: crate::meaning::Model,
)
    requires
        p.has(id),
        id != target,
    ensures
        ({
            let q = forwarded(p, target, hook, module);
            &&& q.has(id)
            &&& !crate::threading::has_bare_call(q.func(id).body, target, p.arity(target))
            &&& crate::threading::takes_no_notice(m, target, p.arity(target))
                ==> crate::meaning::eval(q.func(id).body, env, m) == crate::meaning::eval(
                p.func(id).body,
                env,
                m,
            )
        }),
{
    let callers = crate::threading::callers_of(p, target);
    let arity = p.arity(target);
    crate::threading::lemma_callers_exist(p, target);
    assert forall|k: int| 0 <= k < callers.len() implies p.has(#[trigger] callers[k]) by {}
    lemma_forwarded_in(p, callers, target, hook, module, arity, id, env, m);
    if !callers.contains(id) && crate::threading::has_bare_call(p.func(id).body, target, arity) {
        let i = crate::program::slot(p.functions, id)->0;
        assert(crate::program::is_slot(p.functions, id, i));
        lemma_bare_call_calls(p.func(id).body, target, arity);
        lemma_is_caller(p.functions, target, i);
    }
}

} // verus!
