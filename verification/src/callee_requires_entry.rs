//! Threading of a callee's precondition onto the function that calls it.

use crate::forwarding::{find_spec_module, forward, last_is_placeholder, parameter_names, EntryCall};
use crate::ir::{IRNode, Node};
use crate::program::{Func, Function, Prog, Program};
use crate::text::{append, begins_with, chop, has_text, join, to_upper, trim_end};
use crate::threading::{find_named, select, Pick};
use crate::traverse::{
    any_node, calls_function, contains_id, contains_name, find_node, map_nodes, Rewrite, Test,
};
use crate::types::{FunctionID, ModuleID, Name};
use vstd::prelude::*;
use vstd::string::*;

verus! {

/// A module's name as a namespace: its first letter in upper case.
pub open spec fn namespace_of(name: Name) -> Name {
    if name.len() == 0 {
        name
    } else {
        crate::text::uppercase(name[0]) + name.subrange(1, name.len() as int)
    }
}

/// A module's name as a namespace.
pub fn module_namespace(name: &str) -> (r: String)
    ensures
        r@ == namespace_of(name@),
{
    let n: usize = name.unicode_len();
    if n == 0 {
        return name.to_owned();
    }
    append(to_upper(name.get_char(0)).as_str(), name.substring_char(1, n))
}

/// The text of an argument: a variable, or a chain of field reads on one.
pub open spec fn arg_text(n: Node, p: Prog) -> Option<Name>
    decreases n,
{
    match n {
        Node::Var(v) => Some(v),
        Node::Field { struct_id, field_index, base } => if p.has_struct(struct_id) && field_index
            < p.structure(struct_id).fields.len() {
            match arg_text(*base, p) {
                Some(b) => Some(
                    "("@ + b + "."@ + p.structure(struct_id).fields[field_index as int].name
                        + ")"@,
                ),
                None => None,
            }
        } else {
            None
        },
        _ => None,
    }
}

/// The text of an argument.
pub fn render_arg(node: &IRNode, program: &Program) -> (r: Option<String>)
    ensures
        match r {
            Some(s) => arg_text(node@, program@) == Some(s@),
            None => arg_text(node@, program@) is None,
        },
    decreases node,
{
    match node {
        IRNode::Var(v) => Some(v.clone()),
        IRNode::Field { struct_id, field_index, base } => {
            proof {
                crate::program::lemma_same_slots(program.structs@, program@.structs, *struct_id);
            }
            match crate::program::slot_of(&program.structs, *struct_id) {
                Some(k) => {
                    let s = &program.structs[k].1;
                    assert(s@ == program@.structure(*struct_id));
                    if *field_index < s.fields.len() {
                        match render_arg(base, program) {
                            Some(b) => {
                                let open = append("(", b.as_str());
                                let dotted = append(open.as_str(), ".");
                                let named = append(
                                    dotted.as_str(),
                                    s.fields[*field_index].name.as_str(),
                                );
                                Some(append(named.as_str(), ")"))
                            },
                            None => None,
                        }
                    } else {
                        None
                    }
                },
                None => None,
            }
        },
        _ => None,
    }
}

/// The position behind the opening brackets from `i` on.
pub open spec fn behind_brackets(s: Seq<char>, i: int) -> int
    decreases s.len() - i,
{
    if 0 <= i < s.len() && s[i] == '(' {
        behind_brackets(s, i + 1)
    } else {
        i
    }
}

/// The position of the first dot or space from `i` on, or the end.
pub open spec fn word_end(s: Seq<char>, i: int) -> int
    decreases s.len() - i,
{
    if 0 <= i < s.len() && s[i] != '.' && s[i] != ' ' {
        word_end(s, i + 1)
    } else {
        i
    }
}

/// The variable at the head of an argument's text.
pub open spec fn head_of(s: Seq<char>) -> Seq<char> {
    let i = behind_brackets(s, 0);
    s.subrange(i, word_end(s, i))
}

/// The variable at the head of an argument's text.
pub fn head(s: &str) -> (r: String)
    ensures
        r@ == head_of(s@),
{
    let n: usize = s.unicode_len();
    let mut i: usize = 0;
    while i < n && s.get_char(i) == '('
        invariant
            i <= n,
            n == s@.len(),
            behind_brackets(s@, 0) == behind_brackets(s@, i as int),
        decreases n - i,
    {
        i += 1;
    }
    let mut j: usize = i;
    while j < n && s.get_char(j) != '.' && s.get_char(j) != ' '
        invariant
            i <= j <= n,
            n == s@.len(),
            word_end(s@, i as int) == word_end(s@, j as int),
        decreases n - j,
    {
        j += 1;
    }
    s.substring_char(i, j).to_owned()
}

/// The name of a callee's precondition, as its caller spells it: qualified by
/// the callee's namespace, where the two stand in different modules.
pub open spec fn qualified_hook(
    p: Prog,
    callee_mod: ModuleID,
    caller_mod: ModuleID,
    base: Name,
) -> Name {
    let bare = base + "_spec.requires"@;
    if callee_mod == caller_mod {
        bare
    } else {
        let ns = match crate::program::lookup(p.namespace_overrides, callee_mod) {
            Some(o) => o,
            None => namespace_of(p.module(callee_mod).name),
        };
        ns + "."@ + bare
    }
}

/// The name of a callee's precondition, as its caller spells it.
pub fn requires_hook(
    program: &Program,
    callee_mod: ModuleID,
    caller_mod: ModuleID,
    g_base: &str,
) -> (r: String)
    requires
        program@.has_module(callee_mod),
    ensures
        r@ == qualified_hook(program@, callee_mod, caller_mod, g_base@),
{
    let bare = append(g_base, "_spec.requires");
    if callee_mod == caller_mod {
        return bare;
    }
    proof {
        crate::program::lemma_same_slots(
            program.namespace_overrides@,
            program@.namespace_overrides,
            callee_mod,
        );
    }
    let ns = match crate::program::slot_of(&program.namespace_overrides, callee_mod) {
        Some(k) => program.namespace_overrides[k].1.clone(),
        None => module_namespace(program.module(callee_mod).name.as_str()),
    };
    append(append(ns.as_str(), ".").as_str(), bare.as_str())
}

/// Whether the text of an argument is a parameter, or a field chain on one.
pub open spec fn is_param_text(s: Seq<char>, params: Seq<Name>) -> bool {
    params.contains(head_of(s))
}

/// Whether each argument is a parameter, or a field chain on one.
pub open spec fn all_param_args(args: Seq<Node>, p: Prog, params: Seq<Name>) -> bool {
    forall|i: int|
        0 <= i < args.len() ==> arg_text(#[trigger] args[i], p) is Some && is_param_text(
            arg_text(args[i], p)->0,
            params,
        )
}

/// Whether the expression is a call that owes a proof, on parameters alone.
pub open spec fn is_param_entry(
    n: Node,
    ids: Seq<FunctionID>,
    p: Prog,
    params: Seq<Name>,
) -> bool {
    n matches Node::Call { function, args, .. } && ids.contains(function)
        && crate::forwarding::owes_proof(args) && all_param_args(args.drop_last(), p, params)
}

/// The test for a call that owes a proof, on parameters alone.
struct ParamEntry<'a> {
    ids: &'a Vec<FunctionID>,
    program: &'a Program,
    params: &'a Vec<String>,
}

impl<'a> Test for ParamEntry<'a> {
    closed spec fn holds(&self, n: Node) -> bool {
        is_param_entry(n, self.ids@, self.program@, crate::ir::names(self.params@))
    }

    fn check(&self, n: &IRNode) -> (r: bool) {
        match n {
            IRNode::Call { function, args, .. } => contains_id(self.ids, *function)
                && last_is_placeholder(args) && only_param_args(args, self.program, self.params),
            _ => false,
        }
    }
}

/// Whether each argument but the last is a parameter, or a field chain on one.
fn only_param_args(args: &Vec<IRNode>, program: &Program, params: &Vec<String>) -> (r: bool)
    requires
        args@.len() > 0,
    ensures
        r == all_param_args(
            IRNode::views(args@).drop_last(),
            program@,
            crate::ir::names(params@),
        ),
{
    let ghost init = IRNode::views(args@).drop_last();
    let ghost ps = crate::ir::names(params@);
    let n: usize = args.len() - 1;
    let mut i: usize = 0;
    while i < n
        invariant
            i <= n,
            n == args@.len() - 1,
            init == IRNode::views(args@).drop_last(),
            ps == crate::ir::names(params@),
            forall|j: int|
                0 <= j < i ==> arg_text(#[trigger] init[j], program@) is Some && is_param_text(
                    arg_text(init[j], program@)->0,
                    ps,
                ),
        decreases n - i,
    {
        assert(init[i as int] == args@[i as int]@);
        match render_arg(&args[i], program) {
            Some(s) => {
                if !contains_name(params, &head(s.as_str())) {
                    return false;
                }
            },
            None => {
                return false;
            },
        }
        i += 1;
    }
    true
}

/// The first call in a body that owes a proof of one of the functions.
pub open spec fn entry_call(body: Node, ids: Seq<FunctionID>) -> Option<Node> {
    body.first(|n: Node| crate::forwarding::is_entry_call(n, ids))
}

/// The arguments, without the placeholder, of the first call that owes a proof
/// on parameters alone; without such a call, of the first that owes a proof.
pub open spec fn entry_args(
    body: Node,
    ids: Seq<FunctionID>,
    p: Prog,
    params: Seq<Name>,
) -> Option<Seq<Node>> {
    match body.first(|n: Node| is_param_entry(n, ids, p, params)) {
        Some(Node::Call { args, .. }) => Some(args.drop_last()),
        _ => match entry_call(body, ids) {
            Some(Node::Call { args, .. }) => Some(args.drop_last()),
            _ => None,
        },
    }
}

/// The first call in a body that owes a proof of one of the functions.
fn entry_call_to<'a>(body: &'a IRNode, g_ids: &Vec<FunctionID>) -> (r: Option<&'a IRNode>)
    ensures
        match r {
            Some(n) => entry_call(body@, g_ids@) == Some(n@) && crate::forwarding::is_entry_call(
                n@,
                g_ids@,
            ),
            None => entry_call(body@, g_ids@) is None,
        },
{
    let t = EntryCall { ids: g_ids };
    proof {
        let f = |n: Node| Test::holds(&t, n);
        assert(f =~= (|n: Node| crate::forwarding::is_entry_call(n, g_ids@)));
    }
    find_node(body, &t)
}

/// The arguments over which the callee's precondition is stated; without the
/// placeholder behind them.
fn best_entry_args<'a>(
    body: &'a IRNode,
    g_ids: &Vec<FunctionID>,
    program: &Program,
    caller_params: &Vec<String>,
) -> (r: Option<&'a Vec<IRNode>>)
    ensures
        match r {
            Some(args) => args@.len() > 0 && entry_args(
                body@,
                g_ids@,
                program@,
                crate::ir::names(caller_params@),
            ) == Some(IRNode::views(args@).drop_last()),
            None => entry_args(body@, g_ids@, program@, crate::ir::names(caller_params@)) is None,
        },
{
    let t = ParamEntry { ids: g_ids, program, params: caller_params };
    assert((|n: Node| t.holds(n)) =~= (|n: Node| is_param_entry(
        n,
        g_ids@,
        program@,
        crate::ir::names(caller_params@),
    )));
    match find_node(body, &t) {
        Some(IRNode::Call { args, .. }) => {
            assert(IRNode::views(args@).len() == args@.len());
            Some(args)
        },
        _ => match entry_call_to(body, g_ids) {
            Some(IRNode::Call { args, .. }) => {
                assert(IRNode::views(args@).len() == args@.len());
                Some(args)
            },
            _ => None,
        },
    }
}

/// Whether the expression calls a loop helper of the named function.
pub open spec fn is_own_helper_call(n: Node, p: Prog, base: Name) -> bool {
    n matches Node::Call { function, .. } && p.has(function) && (crate::text::begins(
        p.func(function).name,
        base + ".while_"@,
    ) || crate::text::begins(p.func(function).name, base + ".after_"@))
}

/// The test for a call of an own loop helper.
struct OwnHelperCall<'a> {
    program: &'a Program,
    base: &'a String,
}

impl<'a> Test for OwnHelperCall<'a> {
    closed spec fn holds(&self, n: Node) -> bool {
        is_own_helper_call(n, self.program@, self.base@)
    }

    fn check(&self, n: &IRNode) -> (r: bool) {
        match n {
            IRNode::Call { function, .. } => match self.program.function_slot(*function) {
                Some(k) => {
                    let name = &self.program.functions[k].1.name;
                    begins_with(name.as_str(), append(self.base.as_str(), ".while_").as_str())
                        || begins_with(
                        name.as_str(),
                        append(self.base.as_str(), ".after_").as_str(),
                    )
                },
                None => false,
            },
            _ => false,
        }
    }
}

/// Whether a function is to carry the precondition of one of the callees: it
/// owes a proof of one, is no loop helper, enters no loop of its own, and does
/// not call itself.
pub open spec fn is_candidate(p: Prog, ids: Seq<FunctionID>) -> spec_fn(
    FunctionID,
    Func,
) -> bool {
    |id: FunctionID, f: Func|
        !crate::text::occurs(f.name, ".while_"@) && !crate::text::occurs(f.name, ".after_"@)
            && !f.body.any(
            |n: Node|
                is_own_helper_call(n, p, crate::text::trimmed_end(f.name, ".aborts"@)),
        ) && entry_call(f.body, ids) is Some && !f.body.calls(id)
}

/// The choice of the functions that carry a callee's precondition.
struct Candidates<'a> {
    program: &'a Program,
    ids: &'a Vec<FunctionID>,
}

impl<'a> Pick for Candidates<'a> {
    closed spec fn picks(&self, id: FunctionID, f: Func) -> bool {
        is_candidate(self.program@, self.ids@)(id, f)
    }

    fn pick(&self, id: FunctionID, f: &Function) -> (r: bool) {
        proof {
            reveal_strlit(".aborts");
        }
        let base = trim_end(f.name.as_str(), ".aborts");
        let t = OwnHelperCall { program: self.program, base: &base };
        assert((|n: Node| t.holds(n)) =~= (|n: Node| is_own_helper_call(
            n,
            self.program@,
            base@,
        )));
        let enters_own = any_node(&f.body, &t);
        !has_text(f.name.as_str(), ".while_") && !has_text(f.name.as_str(), ".after_")
            && !enters_own && entry_call_to(&f.body, self.ids).is_some() && !calls_function(
            &f.body,
            id,
        )
    }
}

/// Whether a function's name is among those that take an entry proof.
pub open spec fn is_entry_impl(p: Prog) -> spec_fn(FunctionID, Func) -> bool {
    |id: FunctionID, f: Func| p.loop_inv_entry_impls.contains(f.name)
}

/// The choice of the functions that take an entry proof.
struct EntryImpls<'a> {
    names: &'a Vec<String>,
}

impl<'a> Pick for EntryImpls<'a> {
    closed spec fn picks(&self, id: FunctionID, f: Func) -> bool {
        crate::ir::names(self.names@).contains(f.name)
    }

    fn pick(&self, id: FunctionID, f: &Function) -> (r: bool) {
        contains_name(self.names, &f.name)
    }
}

/// A call of one of two functions with the hypothesis `hpre` in the place of a
/// placeholder that stands last.
pub open spec fn with_hpre(n: Node, g: FunctionID, companion: Option<FunctionID>) -> Node {
    match n {
        Node::Call { function, type_args, args } if (function == g || companion == Some(function))
            && crate::forwarding::owes_proof(args) => Node::Call {
            function,
            type_args,
            args: args.drop_last().push(Node::Var("hpre"@)),
        },
        _ => n,
    }
}

/// The step that puts the hypothesis in.
struct FillHpre {
    g: FunctionID,
    companion: Option<FunctionID>,
}

impl Rewrite for FillHpre {
    closed spec fn accepts(&self, n: Node) -> bool {
        true
    }

    closed spec fn step(&self, n: Node) -> Node {
        with_hpre(n, self.g, self.companion)
    }

    fn apply(&self, n: IRNode) -> (r: IRNode) {
        match n {
            IRNode::Call { function, type_args, args } => {
                let is_companion = match self.companion {
                    Some(a) => a == function,
                    None => false,
                };
                if (function == self.g || is_companion) && last_is_placeholder(&args) {
                    let mut filled = args;
                    let ghost before = IRNode::views(filled@);
                    assert(before.len() == filled@.len());
                    filled.pop();
                    filled.push(IRNode::Var("hpre".to_owned()));
                    assert(IRNode::views(filled@) =~= before.drop_last().push(Node::Var("hpre"@)));
                    IRNode::Call { function, type_args, args: filled }
                } else {
                    IRNode::Call { function, type_args, args }
                }
            },
            other => other,
        }
    }
}

/// The texts of the arguments, where each has one.
pub open spec fn arg_texts(args: Seq<Node>, p: Prog) -> Option<Seq<Name>> {
    if forall|i: int| 0 <= i < args.len() ==> arg_text(#[trigger] args[i], p) is Some {
        Some(Seq::new(args.len(), |i: int| arg_text(args[i], p)->0))
    } else {
        None
    }
}

/// Whether each text is a parameter, or a field chain on one.
pub open spec fn all_param_texts(texts: Seq<Name>, params: Seq<Name>) -> bool {
    forall|i: int| 0 <= i < texts.len() ==> is_param_text(#[trigger] texts[i], params)
}

/// The texts of the arguments but the last, where each has one.
fn render_args(args: &Vec<IRNode>, program: &Program) -> (r: Option<Vec<String>>)
    requires
        args@.len() > 0,
    ensures
        match r {
            Some(v) => arg_texts(IRNode::views(args@).drop_last(), program@) == Some(
                crate::ir::names(v@),
            ),
            None => arg_texts(IRNode::views(args@).drop_last(), program@) is None,
        },
{
    let ghost init = IRNode::views(args@).drop_last();
    let n: usize = args.len() - 1;
    let mut out: Vec<String> = Vec::new();
    let mut i: usize = 0;
    while i < n
        invariant
            i <= n,
            n == args@.len() - 1,
            init == IRNode::views(args@).drop_last(),
            out@.len() == i,
            forall|j: int| 0 <= j < i ==> arg_text(#[trigger] init[j], program@) == Some(
                out@[j]@,
            ),
        decreases n - i,
    {
        assert(init[i as int] == args@[i as int]@);
        match render_arg(&args[i], program) {
            Some(s) => {
                out.push(s);
            },
            None => {
                assert(arg_text(init[i as int], program@) is None);
                return None;
            },
        }
        i += 1;
    }
    assert(crate::ir::names(out@) =~= Seq::new(
        init.len(),
        |i: int| arg_text(init[i], program@)->0,
    ));
    Some(out)
}

/// Whether each text is a parameter, or a field chain on one.
fn only_param_texts(texts: &Vec<String>, params: &Vec<String>) -> (r: bool)
    ensures
        r == all_param_texts(crate::ir::names(texts@), crate::ir::names(params@)),
{
    let ghost ts = crate::ir::names(texts@);
    let ghost ps = crate::ir::names(params@);
    let mut i: usize = 0;
    while i < texts.len()
        invariant
            i <= texts.len(),
            ts == crate::ir::names(texts@),
            ps == crate::ir::names(params@),
            forall|j: int| 0 <= j < i ==> is_param_text(#[trigger] ts[j], ps),
        decreases texts.len() - i,
    {
        assert(ts[i as int] == texts@[i as int]@);
        if !contains_name(params, &head(texts[i].as_str())) {
            assert(!is_param_text(ts[i as int], ps));
            return false;
        }
        i += 1;
    }
    true
}

/// The precondition of the callee that a function is to carry, over the
/// function's own parameters; there is none where the arguments reach beyond
/// them.
pub open spec fn carried_prop(p: Prog, id: FunctionID, ids: Seq<FunctionID>) -> Option<Name> {
    let f = p.func(id);
    let params = crate::forwarding::param_names(f.signature.parameters);
    match (entry_call(f.body, ids), entry_args(f.body, ids, p, params)) {
        (Some(Node::Call { function: g, .. }), Some(args)) => match arg_texts(args, p) {
            Some(texts) => if p.has(g) && p.has_module(p.func(g).module_id) && all_param_texts(
                texts,
                params,
            ) {
                Some(
                    qualified_hook(
                        p,
                        p.func(g).module_id,
                        f.module_id,
                        crate::threading::value_name(p.func(g).name),
                    ) + " "@ + crate::text::joined(texts, " "@),
                )
            } else {
                None
            },
            None => None,
        },
        _ => None,
    }
}

impl Prog {
    /// The program with a function among those that carry a callee's precondition.
    pub open spec fn with_callee_impl(self, id: FunctionID) -> Prog {
        if self.callee_requires_impls.contains(id) {
            self
        } else {
            Prog { callee_requires_impls: self.callee_requires_impls.push(id), ..self }
        }
    }
}

/// Records that a function carries a callee's precondition.
fn add_callee_impl(program: &mut Program, id: FunctionID)
    ensures
        final(program)@ == old(program)@.with_callee_impl(id),
{
    let ghost before = program@;
    if !contains_id(&program.callee_requires_impls, id) {
        program.callee_requires_impls.push(id);
    }
    assert(program@ =~= before.with_callee_impl(id));
}

/// The program with one function carrying its callee's precondition: the calls of
/// the callee use it, and the function's own callers hand it on.
pub open spec fn candidate_threaded(p: Prog, id: FunctionID, ids: Seq<FunctionID>) -> Prog {
    match carried_prop(p, id, ids) {
        None => p,
        Some(prop) => {
            let f = p.func(id);
            let g = entry_call(f.body, ids)->0->Call_function;
            let g_base = crate::threading::value_name(p.func(g).name);
            let p1 = p.with_proof_param(id, "hpre"@, prop).with_callee_impl(id);
            let companion = crate::threading::named(
                p1,
                p.func(g).module_id,
                g_base + ".aborts"@,
            );
            let p2 = p1.with_body(id, f.body.map(|n: Node| with_hpre(n, g, companion)));
            let base = crate::threading::value_name(f.name);
            crate::forwarding::forwarded(
                p2,
                id,
                base + "_spec.requires"@,
                crate::forwarding::spec_module(p2, base, p2.module(f.module_id).name),
            )
        },
    }
}

/// The program with each of some functions carrying its callee's precondition.
pub open spec fn candidates_threaded(
    p: Prog,
    todo: Seq<FunctionID>,
    ids: Seq<FunctionID>,
) -> Prog
    decreases todo.len(),
{
    if todo.len() == 0 {
        p
    } else {
        candidate_threaded(candidates_threaded(p, todo.drop_last(), ids), todo.last(), ids)
    }
}

/// The program with the preconditions of callees threaded onto their callers.
pub open spec fn callee_requires_threaded(p: Prog) -> Prog {
    let ids = crate::threading::selected(p.functions, is_entry_impl(p));
    if p.loop_inv_entry_impls.len() == 0 || ids.len() == 0 {
        p
    } else {
        candidates_threaded(
            p,
            crate::threading::selected(p.functions, is_candidate(p, ids)),
            ids,
        )
    }
}

/// The precondition of the callee that a function is to carry, with the callee.
fn find_carried_prop(program: &Program, id: FunctionID, g_ids: &Vec<FunctionID>) -> (r: Option<
    (FunctionID, String),
>)
    requires
        program@.has(id),
    ensures
        match r {
            Some((g, s)) => carried_prop(program@, id, g_ids@) == Some(s@) && program@.has(g)
                && entry_call(program@.func(id).body, g_ids@)->0->Call_function == g,
            None => carried_prop(program@, id, g_ids@) is None,
        },
{
    let f = program.function(id);
    let params = parameter_names(&f.signature.parameters);
    let g: FunctionID = match entry_call_to(&f.body, g_ids) {
        Some(IRNode::Call { function, .. }) => *function,
        _ => {
            return None;
        },
    };
    let args = match best_entry_args(&f.body, g_ids, program, &params) {
        Some(a) => a,
        None => {
            return None;
        },
    };
    let texts = match render_args(args, program) {
        Some(t) => t,
        None => {
            return None;
        },
    };
    if !only_param_texts(&texts, &params) {
        return None;
    }
    if program.function_slot(g).is_none() {
        return None;
    }
    let callee = program.function(g);
    proof {
        crate::program::lemma_same_slots(program.modules@, program@.modules, callee.module_id);
    }
    if crate::program::slot_of(&program.modules, callee.module_id).is_none() {
        return None;
    }
    let base = chop(callee.name.as_str(), ".aborts");
    let hook = requires_hook(program, callee.module_id, f.module_id, base.as_str());
    let list = join(&texts, " ");
    Some((g, append(append(hook.as_str(), " ").as_str(), list.as_str())))
}

/// Lets one function carry its callee's precondition.
fn thread_candidate(program: &mut Program, id: FunctionID, g_ids: &Vec<FunctionID>)
    requires
        old(program)@.has(id),
        old(program)@.has_module(old(program)@.func(id).module_id),
    ensures
        final(program)@ == candidate_threaded(old(program)@, id, g_ids@),
        final(program)@.same_shape(old(program)@),
{
    let ghost start = program@;
    match find_carried_prop(program, id, g_ids) {
        None => {},
        Some((g, prop)) => {
            let g_module: ModuleID = program.function(g).module_id;
            let g_base = chop(program.function(g).name.as_str(), ".aborts");
            let f_module: ModuleID = program.function(id).module_id;
            let f_base = chop(program.function(id).name.as_str(), ".aborts");
            program.add_proof_param(id, "hpre".to_owned(), prop);
            add_callee_impl(program, id);
            assert(program@.functions == start.functions);
            assert(program@.modules == start.modules);
            let companion = find_named(program, g_module, &append(g_base.as_str(), ".aborts"));
            let t = FillHpre { g, companion };
            let ghost body0 = program@.func(id).body;
            proof {
                body0.lemma_map_accepts_all(|n: Node| t.step(n), |n: Node| t.accepts(n));
                assert((|n: Node| t.step(n)) =~= (|n: Node| with_hpre(n, g, companion)));
            }
            let body = map_nodes(&program.function(id).body, &t);
            proof {
                program@.lemma_with_body(id, body@);
            }
            let ghost p1 = program@;
            program.set_body(id, body);
            let ghost p2 = program@;
            assert(p2.modules == start.modules);
            let module_name = program.module(f_module).name.clone();
            let hook = append(f_base.as_str(), "_spec.requires");
            let module = find_spec_module(program, &f_base, &module_name);
            forward(program, id, &hook, module);
        },
    }
}

/// Functions keep their modules when one carries its callee's precondition.
proof fn lemma_candidate_keeps_homes(p: Prog, id: FunctionID, ids: Seq<FunctionID>)
    requires
        p.has(id),
    ensures
        crate::loop_inv_entry::same_homes(p, candidate_threaded(p, id, ids)),
{
    match carried_prop(p, id, ids) {
        None => {},
        Some(prop) => {
            let f = p.func(id);
            let g = entry_call(f.body, ids)->0->Call_function;
            let g_base = crate::threading::value_name(p.func(g).name);
            let p1 = p.with_proof_param(id, "hpre"@, prop).with_callee_impl(id);
            let companion = crate::threading::named(
                p1,
                p.func(g).module_id,
                g_base + ".aborts"@,
            );
            let body = f.body.map(|n: Node| with_hpre(n, g, companion));
            let p2 = p1.with_body(id, body);
            assert(p1.functions == p.functions);
            crate::loop_inv_entry::lemma_body_keeps_homes(p1, id, body);
            let base = crate::threading::value_name(f.name);
            crate::threading::lemma_callers_exist(p2, id);
            crate::loop_inv_entry::lemma_forwarded_keeps_homes(
                p2,
                crate::threading::callers_of(p2, id),
                id,
                base + "_spec.requires"@,
                crate::forwarding::spec_module(p2, base, p2.module(f.module_id).name),
                p2.arity(id),
            );
        },
    }
}

/// Threads the preconditions of callees onto their callers.
pub fn thread_callee_requires_entry(program: &mut Program)
    requires
        old(program)@.linked(),
    ensures
        final(program)@ == callee_requires_threaded(old(program)@),
        final(program)@.same_shape(old(program)@),
{
    assert(program@.loop_inv_entry_impls.len() == program.loop_inv_entry_impls@.len());
    if program.loop_inv_entry_impls.len() == 0 {
        return;
    }
    let ghost start = program@;
    let g_ids = {
        let t = EntryImpls { names: &program.loop_inv_entry_impls };
        assert((|k: FunctionID, f: Func| t.picks(k, f)) =~= is_entry_impl(program@));
        select(program, &t)
    };
    if g_ids.len() == 0 {
        return;
    }
    let todo = {
        let t = Candidates { program: &*program, ids: &g_ids };
        assert((|k: FunctionID, f: Func| t.picks(k, f)) =~= is_candidate(program@, g_ids@));
        select(program, &t)
    };
    let mut i: usize = 0;
    assert(todo@.subrange(0, 0) =~= Seq::empty());
    while i < todo.len()
        invariant
            i <= todo.len(),
            start.linked(),
            forall|k: int| 0 <= k < todo@.len() ==> start.has(#[trigger] todo@[k]),
            program@ == candidates_threaded(start, todo@.subrange(0, i as int), g_ids@),
            crate::loop_inv_entry::same_homes(start, program@),
        decreases todo.len() - i,
    {
        proof {
            let next = todo@.subrange(0, i + 1);
            assert(next.drop_last() =~= todo@.subrange(0, i as int));
            assert(next.last() == todo@[i as int]);
            crate::loop_inv_entry::lemma_home(start, program@, todo@[i as int]);
            lemma_candidate_keeps_homes(program@, todo@[i as int], g_ids@);
        }
        thread_candidate(program, todo[i], &g_ids);
        i += 1;
    }
    assert(todo@.subrange(0, i as int) =~= todo@);
}

/// A program in which no function takes an entry proof stays as it is.
pub proof fn law_no_entry_impl_no_change(p: Prog)
    requires
        p.loop_inv_entry_impls.len() == 0,
    ensures
        callee_requires_threaded(p) == p,
{
}

} // verus!
