//! What the passes that thread proof arguments through the call graph share.

use crate::ir::{IRNode, Node};
use crate::program::{Func, Function, Parameter, Prog, Program};
use crate::text::{append, chop, ends_in, has_text, join, replace_char, strip_start, to_lower};
use crate::traverse::{calls_function, map_nodes, uses_name, Rewrite};
use crate::types::{FunctionID, Name};
use vstd::prelude::*;

verus! {

/// A choice among the functions of a program.
pub trait Pick {
    /// Whether the function is chosen.
    spec fn picks(&self, id: FunctionID, f: Func) -> bool;

    /// Decides whether the function is chosen.
    fn pick(&self, id: FunctionID, f: &Function) -> (r: bool)
        ensures
            r == self.picks(id, f@),
    ;
}

/// The identifiers of the chosen functions, in program order.
pub open spec fn selected(
    fs: Seq<(FunctionID, Func)>,
    p: spec_fn(FunctionID, Func) -> bool,
) -> Seq<FunctionID>
    decreases fs.len(),
{
    if fs.len() == 0 {
        Seq::empty()
    } else {
        let before = selected(fs.drop_last(), p);
        if p(fs.last().0, fs.last().1) {
            before.push(fs.last().0)
        } else {
            before
        }
    }
}

/// The first of the chosen functions.
pub open spec fn first_selected(
    fs: Seq<(FunctionID, Func)>,
    p: spec_fn(FunctionID, Func) -> bool,
) -> Option<FunctionID> {
    if selected(fs, p).len() > 0 {
        Some(selected(fs, p)[0])
    } else {
        None
    }
}

/// Each chosen identifier is that of a function.
pub proof fn lemma_selected_exist(
    fs: Seq<(FunctionID, Func)>,
    p: spec_fn(FunctionID, Func) -> bool,
)
    ensures
        forall|k: int| #![trigger selected(fs, p)[k]]
            0 <= k < selected(fs, p).len() ==> exists|i: int|
                0 <= i < fs.len() && (#[trigger] fs[i]).0 == selected(fs, p)[k] && p(
                    fs[i].0,
                    fs[i].1,
                ),
    decreases fs.len(),
{
    if fs.len() > 0 {
        let init = fs.drop_last();
        lemma_selected_exist(init, p);
        assert forall|k: int| #![trigger selected(fs, p)[k]] 0 <= k < selected(
            fs,
            p,
        ).len() implies exists|i: int|
            0 <= i < fs.len() && (#[trigger] fs[i]).0 == selected(fs, p)[k] && p(
                fs[i].0,
                fs[i].1,
            ) by {
            if k < selected(init, p).len() {
                assert(selected(fs, p)[k] == selected(init, p)[k]);
                let i = choose|i: int|
                    0 <= i < init.len() && (#[trigger] init[i]).0 == selected(init, p)[k] && p(
                        init[i].0,
                        init[i].1,
                    );
                assert(fs[i] == init[i]);
            } else {
                assert(fs[fs.len() - 1] == fs.last());
            }
        }
    }
}

/// The identifiers of the chosen functions, in program order.
pub fn select<T: Pick>(program: &Program, t: &T) -> (r: Vec<FunctionID>)
    ensures
        r@ == selected(program@.functions, |id: FunctionID, f: Func| t.picks(id, f)),
        forall|k: int| 0 <= k < r@.len() ==> program@.has(#[trigger] r@[k]),
{
    let ghost p = |id: FunctionID, f: Func| t.picks(id, f);
    let ghost fs = program@.functions;
    let mut out: Vec<FunctionID> = Vec::new();
    let mut i: usize = 0;
    assert(fs.subrange(0, 0) =~= Seq::empty());
    while i < program.functions.len()
        invariant
            i <= program.functions.len(),
            fs == program@.functions,
            p == (|id: FunctionID, f: Func| t.picks(id, f)),
            out@ == selected(fs.subrange(0, i as int), p),
        decreases program.functions.len() - i,
    {
        let id: FunctionID = program.functions[i].0;
        let chosen = t.pick(id, &program.functions[i].1);
        proof {
            let next = fs.subrange(0, i + 1);
            assert(next.drop_last() =~= fs.subrange(0, i as int));
            assert(next.last() == fs[i as int]);
        }
        if chosen {
            out.push(id);
        }
        i += 1;
    }
    assert(fs.subrange(0, i as int) =~= fs);
    proof {
        lemma_selected_exist(fs, p);
        assert forall|k: int| 0 <= k < out@.len() implies program@.has(#[trigger] out@[k]) by {
            assert(selected(fs, p)[k] == out@[k]);
            let i = choose|i: int|
                0 <= i < fs.len() && (#[trigger] fs[i]).0 == selected(fs, p)[k] && p(
                    fs[i].0,
                    fs[i].1,
                );
            crate::program::lemma_slot_exists(fs, out@[k], i);
        }
    }
    out
}

/// The first of the chosen functions.
pub fn select_first<T: Pick>(program: &Program, t: &T) -> (r: Option<FunctionID>)
    ensures
        r == first_selected(program@.functions, |id: FunctionID, f: Func| t.picks(id, f)),
        r matches Some(id) ==> program@.has(id),
{
    let ids = select(program, t);
    if ids.len() > 0 {
        Some(ids[0])
    } else {
        None
    }
}

/// A call of `target` with `arity` arguments, with one more argument behind them.
pub open spec fn with_extra_arg(n: Node, target: FunctionID, arity: nat, extra: Node) -> Node {
    match n {
        Node::Call { function, type_args, args } if function == target && args.len()
            == arity => Node::Call { function, type_args, args: args.push(extra) },
        _ => n,
    }
}

/// The expression with one more argument at each call of `target` with `arity`
/// arguments.
pub open spec fn extra_args(n: Node, target: FunctionID, arity: nat, extra: Node) -> Node {
    n.map(|m: Node| with_extra_arg(m, target, arity, extra))
}

/// The placeholder that stands where a proof argument is owed.
pub open spec fn placeholder() -> Node {
    Node::Abort { code: None }
}

/// The step that adds an argument.
struct AddArg<'a> {
    target: FunctionID,
    arity: usize,
    extra: &'a IRNode,
}

impl<'a> Rewrite for AddArg<'a> {
    closed spec fn accepts(&self, n: Node) -> bool {
        true
    }

    closed spec fn step(&self, n: Node) -> Node {
        with_extra_arg(n, self.target, self.arity as nat, self.extra@)
    }

    fn apply(&self, n: IRNode) -> (r: IRNode) {
        match n {
            IRNode::Call { function, type_args, args } => {
                if function == self.target && args.len() == self.arity {
                    let mut more = args;
                    let ghost before = more@;
                    more.push(self.extra.clone());
                    assert(IRNode::views(more@) =~= IRNode::views(before).push(self.extra@));
                    IRNode::Call { function, type_args, args: more }
                } else {
                    assert(IRNode::views(args@).len() == args@.len());
                    IRNode::Call { function, type_args, args }
                }
            },
            other => other,
        }
    }
}

/// Adds an argument at each call of `target` with `arity` arguments.
pub fn add_args(node: &IRNode, target: FunctionID, arity: usize, extra: &IRNode) -> (r: IRNode)
    ensures
        r@ == extra_args(node@, target, arity as nat, extra@),
{
    let t = AddArg { target, arity, extra };
    proof {
        node@.lemma_map_accepts_all(|n: Node| t.step(n), |n: Node| t.accepts(n));
        assert((|n: Node| t.step(n)) =~= (|n: Node| with_extra_arg(
            n,
            target,
            arity as nat,
            extra@,
        )));
    }
    map_nodes(node, &t)
}

impl Prog {
    /// The number of value parameters of a function.
    pub open spec fn arity(self, id: FunctionID) -> nat {
        self.func(id).signature.parameters.len()
    }

    /// The program with an argument added at the calls of `target` in one function.
    pub open spec fn with_arg(
        self,
        id: FunctionID,
        target: FunctionID,
        arity: nat,
        extra: Node,
    ) -> Prog {
        self.with_body(id, extra_args(self.func(id).body, target, arity, extra))
    }

    /// The program with a placeholder added at the calls of `target` in one function.
    pub open spec fn placed(self, id: FunctionID, target: FunctionID, arity: nat) -> Prog {
        self.with_arg(id, target, arity, placeholder())
    }

    /// The program with a placeholder added at the calls of `target` in each of
    /// some functions.
    pub open spec fn placed_in(
        self,
        ids: Seq<FunctionID>,
        target: FunctionID,
        arity: nat,
    ) -> Prog
        decreases ids.len(),
    {
        if ids.len() == 0 {
            self
        } else {
            self.placed_in(ids.drop_last(), target, arity).placed(ids.last(), target, arity)
        }
    }

    /// Whether the two programs have the same functions, up to their bodies.
    pub open spec fn same_shape(self, other: Prog) -> bool {
        self.functions.len() == other.functions.len() && forall|i: int|
            0 <= i < self.functions.len() ==> (#[trigger] self.functions[i]).0
                == other.functions[i].0 && self.functions[i].1 == (Func {
                body: self.functions[i].1.body,
                ..other.functions[i].1
            })
    }

    /// Programs of one shape have the same functions.
    pub proof fn lemma_same_shape(self, other: Prog)
        requires
            self.same_shape(other),
        ensures
            forall|id: FunctionID| #[trigger]
                crate::program::slot(self.functions, id) == crate::program::slot(
                    other.functions,
                    id,
                ),
            forall|id: FunctionID| #[trigger] self.has(id) == other.has(id),
    {
        assert forall|id: FunctionID| #[trigger]
            crate::program::slot(self.functions, id) == crate::program::slot(
                other.functions,
                id,
            ) by {
            crate::program::lemma_same_slots(self.functions, other.functions, id);
        }
    }

    /// Another body leaves the shape as it is.
    pub proof fn lemma_with_body(self, id: FunctionID, body: Node)
        requires
            self.has(id),
        ensures
            self.with_body(id, body).same_shape(self),
            forall|k: FunctionID| #[trigger] self.with_body(id, body).has(k) == self.has(k),
            self.with_body(id, body).func(id) == (Func { body, ..self.func(id) }),
            forall|k: FunctionID| k != id && self.has(k) ==> #[trigger] self.with_body(
                id,
                body,
            ).func(k) == self.func(k),
    {
        let i = crate::program::slot(self.functions, id)->0;
        let k0 = choose|k: int| crate::program::is_slot(self.functions, id, k);
        assert(crate::program::is_slot(self.functions, id, k0));
        let q = self.with_body(id, body);
        assert(q.functions[i].0 == id);
        q.lemma_same_shape(self);
        assert forall|k: FunctionID| k != id && self.has(k) implies #[trigger] q.func(k)
            == self.func(k) by {
            let j = crate::program::slot(self.functions, k)->0;
            assert(crate::program::slot(q.functions, k) == crate::program::slot(
                self.functions,
                k,
            ));
            let kk = choose|x: int| crate::program::is_slot(self.functions, k, x);
            assert(crate::program::is_slot(self.functions, k, kk));
        }
    }

    /// Placeholders leave the shape as it is.
    pub proof fn lemma_placed_in(self, ids: Seq<FunctionID>, target: FunctionID, arity: nat)
        requires
            forall|k: int| 0 <= k < ids.len() ==> self.has(#[trigger] ids[k]),
        ensures
            self.placed_in(ids, target, arity).same_shape(self),
        decreases ids.len(),
    {
        if ids.len() > 0 {
            let init = ids.drop_last();
            assert forall|k: int| 0 <= k < init.len() implies self.has(#[trigger] init[k]) by {
                assert(init[k] == ids[k]);
            }
            self.lemma_placed_in(init, target, arity);
            let q = self.placed_in(init, target, arity);
            q.lemma_same_shape(self);
            assert(self.has(ids[ids.len() - 1]));
            q.lemma_with_body(
                ids.last(),
                extra_args(q.func(ids.last()).body, target, arity, placeholder()),
            );
        }
    }
}

/// Adds an argument at the calls of `target` in one function.
pub fn put_arg(
    program: &mut Program,
    id: FunctionID,
    target: FunctionID,
    arity: usize,
    extra: &IRNode,
)
    requires
        old(program)@.has(id),
    ensures
        final(program)@ == old(program)@.with_arg(id, target, arity as nat, extra@),
        final(program)@.same_shape(old(program)@),
{
    let body = add_args(&program.function(id).body, target, arity, extra);
    proof {
        program@.lemma_with_body(id, body@);
    }
    program.set_body(id, body);
}

/// Adds a placeholder at the calls of `target` in one function.
pub fn place(program: &mut Program, id: FunctionID, target: FunctionID, arity: usize)
    requires
        old(program)@.has(id),
    ensures
        final(program)@ == old(program)@.placed(id, target, arity as nat),
        final(program)@.same_shape(old(program)@),
{
    let extra = IRNode::Abort { code: None };
    put_arg(program, id, target, arity, &extra);
}

/// Adds a placeholder at the calls of `target` in each of some functions.
pub fn place_in(
    program: &mut Program,
    ids: &Vec<FunctionID>,
    target: FunctionID,
    arity: usize,
)
    requires
        forall|k: int| 0 <= k < ids@.len() ==> old(program)@.has(#[trigger] ids@[k]),
    ensures
        final(program)@ == old(program)@.placed_in(ids@, target, arity as nat),
        final(program)@.same_shape(old(program)@),
{
    let ghost start = program@;
    let mut i: usize = 0;
    assert(ids@.subrange(0, 0) =~= Seq::empty());
    while i < ids.len()
        invariant
            i <= ids.len(),
            forall|k: int| 0 <= k < ids@.len() ==> start.has(#[trigger] ids@[k]),
            program@ == start.placed_in(ids@.subrange(0, i as int), target, arity as nat),
            program@.same_shape(start),
        decreases ids.len() - i,
    {
        proof {
            program@.lemma_same_shape(start);
            let next = ids@.subrange(0, i + 1);
            assert(next.drop_last() =~= ids@.subrange(0, i as int));
            assert(next.last() == ids@[i as int]);
        }
        place(program, ids[i], target, arity);
        i += 1;
    }
    assert(ids@.subrange(0, i as int) =~= ids@);
}

/// Whether another function calls a function.
pub open spec fn calling(id: FunctionID) -> spec_fn(FunctionID, Func) -> bool {
    |k: FunctionID, f: Func| k != id && f.body.calls(id)
}

/// The other functions that call a function.
pub open spec fn callers_of(p: Prog, id: FunctionID) -> Seq<FunctionID> {
    selected(p.functions, calling(id))
}

/// The choice of the callers of a function.
struct CallersOf {
    id: FunctionID,
}

impl Pick for CallersOf {
    closed spec fn picks(&self, id: FunctionID, f: Func) -> bool {
        id != self.id && f.body.calls(self.id)
    }

    fn pick(&self, id: FunctionID, f: &Function) -> (r: bool) {
        id != self.id && calls_function(&f.body, self.id)
    }
}

/// The other functions that call a function.
pub fn find_callers(program: &Program, id: FunctionID) -> (r: Vec<FunctionID>)
    ensures
        r@ == callers_of(program@, id),
        forall|k: int| 0 <= k < r@.len() ==> program@.has(#[trigger] r@[k]),
{
    let t = CallersOf { id };
    assert((|k: FunctionID, f: Func| t.picks(k, f)) =~= calling(id));
    select(program, &t)
}

/// Callers are functions of the program.
pub proof fn lemma_callers_exist(p: Prog, id: FunctionID)
    ensures
        forall|k: int| #![trigger callers_of(p, id)[k]]
            0 <= k < callers_of(p, id).len() ==> p.has(
                callers_of(p, id)[k],
            ),
{
    lemma_selected_exist(p.functions, calling(id));
    let c = callers_of(p, id);
    let fs = p.functions;
    assert forall|k: int| #![trigger c[k]] 0 <= k < c.len() implies p.has(c[k]) by {
        let i = choose|i: int|
            0 <= i < fs.len() && (#[trigger] fs[i]).0 == selected(
                fs,
                calling(id),
            )[k] && calling(id)(fs[i].0, fs[i].1);
        crate::program::lemma_slot_exists(fs, c[k], i);
    }
}

/// The first function of a module with the name.
pub open spec fn named(p: Prog, module: usize, name: Name) -> Option<FunctionID> {
    first_selected(
        p.functions,
        |k: FunctionID, f: Func| f.module_id == module && f.name == name,
    )
}

/// The choice of the functions of a module with a name.
struct Named<'a> {
    module: usize,
    name: &'a String,
}

impl<'a> Pick for Named<'a> {
    closed spec fn picks(&self, id: FunctionID, f: Func) -> bool {
        f.module_id == self.module && f.name == self.name@
    }

    fn pick(&self, id: FunctionID, f: &Function) -> (r: bool) {
        f.module_id == self.module && f.name == *self.name
    }
}

/// The first function of a module with the name.
pub fn find_named(program: &Program, module: usize, name: &String) -> (r: Option<FunctionID>)
    ensures
        r == named(program@, module, name@),
        r matches Some(id) ==> program@.has(id),
{
    let t = Named { module, name };
    assert((|k: FunctionID, f: Func| t.picks(k, f)) =~= (|k: FunctionID, f: Func| f.module_id
        == module && f.name == name@));
    select_first(program, &t)
}

/// The name of the value function that an aborts companion belongs to; the
/// name itself of any other function.
pub open spec fn value_name(name: Name) -> Name {
    crate::text::chopped(name, ".aborts"@)
}

/// The name, as the emitted binders spell it.
pub open spec fn escaped(name: Name) -> Name {
    crate::text::replaced(
        if crate::text::begins(name, "$"@) {
            "t_"@ + name.subrange(1, name.len() as int)
        } else {
            crate::text::replaced(name, '$', "_t_"@)
        },
        '#',
        "_"@,
    )
}

/// The name, as the emitted binders spell it.
pub fn escape_param(name: &String) -> (r: String)
    ensures
        r@ == escaped(name@),
{
    proof {
        reveal_strlit("$");
    }
    let s = match strip_start(name.as_str(), "$") {
        Some(rest) => append("t_", rest.as_str()),
        None => replace_char(name.as_str(), '$', "_t_"),
    };
    replace_char(s.as_str(), '#', "_")
}

/// Whether the function is a specification: it is named as one and stands in a
/// module of specifications.
pub open spec fn spec_function(p: Prog, id: FunctionID) -> bool {
    let f = p.func(id);
    crate::text::occurs(f.name, "_spec"@) && p.has_module(f.module_id) && crate::text::ends(
        crate::text::lowercase(p.module(f.module_id).name),
        "specs"@,
    )
}

/// Whether the function is a specification.
pub fn is_spec_function(program: &Program, id: FunctionID) -> (r: bool)
    requires
        program@.has(id),
    ensures
        r == spec_function(program@, id),
{
    let f = program.function(id);
    proof {
        crate::program::lemma_same_slots(program.modules@, program@.modules, f.module_id);
    }
    match crate::program::slot_of(&program.modules, f.module_id) {
        Some(_) => has_text(f.name.as_str(), "_spec") && ends_in(
            to_lower(program.module(f.module_id).name.as_str()).as_str(),
            "specs",
        ),
        None => false,
    }
}

/// The function whose parameters a precondition is stated over: the value
/// function, where the function is its aborts companion.
pub open spec fn value_of(p: Prog, id: FunctionID) -> FunctionID {
    let f = p.func(id);
    if crate::text::ends(f.name, ".aborts"@) {
        match named(p, f.module_id, value_name(f.name)) {
            Some(v) => v,
            None => id,
        }
    } else {
        id
    }
}

/// The names of the parameters that a body reads, escaped.
pub open spec fn read_params(params: Seq<crate::program::Param>, body: Node) -> Seq<Name>
    decreases params.len(),
{
    if params.len() == 0 {
        Seq::empty()
    } else {
        let before = read_params(params.drop_last(), body);
        if body.uses(params.last().ssa_value) {
            before.push(escaped(params.last().name))
        } else {
            before
        }
    }
}

/// The precondition of a function, over the parameters that its value function
/// reads; there is none without such parameters.
pub open spec fn precond_of(p: Prog, id: FunctionID) -> Option<Name> {
    let v = p.func(value_of(p, id));
    let params = read_params(v.signature.parameters, v.body);
    if params.len() == 0 {
        None
    } else {
        Some(value_name(p.func(id).name) + ".precond "@ + crate::text::joined(params, " "@))
    }
}

/// The names of the parameters that a body reads, escaped.
fn params_read(params: &Vec<Parameter>, body: &IRNode) -> (r: Vec<String>)
    ensures
        crate::ir::names(r@) == read_params(Parameter::views(params@), body@),
{
    let ghost all = Parameter::views(params@);
    let mut out: Vec<String> = Vec::new();
    let mut i: usize = 0;
    assert(crate::ir::names(out@) =~= Seq::empty());
    assert(all.subrange(0, 0) =~= Seq::empty());
    while i < params.len()
        invariant
            i <= params.len(),
            all == Parameter::views(params@),
            crate::ir::names(out@) == read_params(all.subrange(0, i as int), body@),
        decreases params.len() - i,
    {
        proof {
            let next = all.subrange(0, i + 1);
            assert(next.drop_last() =~= all.subrange(0, i as int));
            assert(next.last() == params@[i as int]@);
        }
        if uses_name(body, &params[i].ssa_value) {
            let ghost before = out@;
            out.push(escape_param(&params[i].name));
            assert(crate::ir::names(out@) =~= crate::ir::names(before).push(
                escaped(params@[i as int].name@),
            ));
        }
        i += 1;
    }
    assert(all.subrange(0, i as int) =~= all);
    out
}

/// The precondition of a function.
pub fn precond_prop(program: &Program, id: FunctionID) -> (r: Option<String>)
    requires
        program@.has(id),
    ensures
        match r {
            Some(s) => precond_of(program@, id) == Some(s@),
            None => precond_of(program@, id) is None,
        },
{
    let f = program.function(id);
    let base = chop(f.name.as_str(), ".aborts");
    let value_id: FunctionID = if ends_in(f.name.as_str(), ".aborts") {
        match find_named(program, f.module_id, &base) {
            Some(v) => v,
            None => id,
        }
    } else {
        id
    };
    let v = program.function(value_id);
    let params = params_read(&v.signature.parameters, &v.body);
    if params.len() == 0 {
        assert(crate::ir::names(params@).len() == 0);
        return None;
    }
    assert(crate::ir::names(params@).len() > 0);
    let list = join(&params, " ");
    Some(append(append(base.as_str(), ".precond ").as_str(), list.as_str()))
}

/// How many functions are not in a list.
pub open spec fn remaining(fs: Seq<(FunctionID, Func)>, done: Seq<FunctionID>) -> nat
    decreases fs.len(),
{
    if fs.len() == 0 {
        0
    } else {
        remaining(fs.drop_last(), done) + if done.contains(fs.last().0) {
            0nat
        } else {
            1nat
        }
    }
}

/// Adding an identifier leaves no more functions out of the list.
pub proof fn lemma_remaining_grows(
    fs: Seq<(FunctionID, Func)>,
    done: Seq<FunctionID>,
    id: FunctionID,
)
    ensures
        remaining(fs, done.push(id)) <= remaining(fs, done),
    decreases fs.len(),
{
    if fs.len() > 0 {
        lemma_remaining_grows(fs.drop_last(), done, id);
        let k = fs.last().0;
        if done.contains(k) {
            let j = choose|j: int| 0 <= j < done.len() && done[j] == k;
            assert(done.push(id)[j] == k);
        }
    }
}

/// Adding a function that was not in the list leaves fewer out of it.
pub proof fn lemma_remaining_drops(
    fs: Seq<(FunctionID, Func)>,
    done: Seq<FunctionID>,
    id: FunctionID,
    i: int,
)
    requires
        !done.contains(id),
        0 <= i < fs.len(),
        fs[i].0 == id,
    ensures
        remaining(fs, done.push(id)) < remaining(fs, done),
    decreases fs.len(),
{
    let init = fs.drop_last();
    if i == fs.len() - 1 {
        lemma_remaining_grows(init, done, id);
        assert(done.push(id)[done.len() as int] == id);
    } else {
        assert(init[i] == fs[i]);
        lemma_remaining_drops(init, done, id, i);
        let k = fs.last().0;
        if done.contains(k) {
            let j = choose|j: int| 0 <= j < done.len() && done[j] == k;
            assert(done.push(id)[j] == k);
        }
    }
}

/// The count depends on the identifiers alone.
pub proof fn lemma_remaining_same(
    a: Seq<(FunctionID, Func)>,
    b: Seq<(FunctionID, Func)>,
    done: Seq<FunctionID>,
)
    requires
        a.len() == b.len(),
        forall|i: int| 0 <= i < a.len() ==> (#[trigger] a[i]).0 == b[i].0,
    ensures
        remaining(a, done) == remaining(b, done),
    decreases a.len(),
{
    if a.len() > 0 {
        let x = a.drop_last();
        let y = b.drop_last();
        assert forall|i: int| 0 <= i < x.len() implies (#[trigger] x[i]).0 == y[i].0 by {
            assert(x[i] == a[i] && y[i] == b[i]);
        }
        lemma_remaining_same(x, y, done);
        assert(a[a.len() - 1].0 == b[b.len() - 1].0);
    }
}

/// Processing a function of a program, and giving functions other bodies
/// meanwhile, leaves fewer to process.
pub proof fn lemma_progress(p: Prog, q: Prog, done: Seq<FunctionID>, id: FunctionID)
    requires
        p.has(id),
        !done.contains(id),
        q.same_shape(p),
    ensures
        remaining(q.functions, done.push(id)) < remaining(p.functions, done),
{
    let i = choose|i: int| crate::program::is_slot(p.functions, id, i);
    assert(crate::program::is_slot(p.functions, id, i));
    lemma_remaining_drops(p.functions, done, id, i);
    lemma_remaining_same(q.functions, p.functions, done.push(id));
}

/// Whether an expression is a call of a function without the argument that it is to be
/// given.
pub open spec fn is_bare_call(n: Node, target: FunctionID, arity: nat) -> bool {
    match n {
        Node::Call { function, args, .. } => function == target && args.len() == arity,
        _ => false,
    }
}

/// Whether an expression holds such a call.
pub open spec fn has_bare_call(n: Node, target: FunctionID, arity: nat) -> bool {
    n.any(|k: Node| is_bare_call(k, target, arity))
}

/// No call is left without the argument that it is to be given.
pub proof fn law_every_call_is_given_its_argument(
    n: Node,
    target: FunctionID,
    arity: nat,
    extra: Node,
)
    requires
        !has_bare_call(extra, target, arity),
    ensures
        !has_bare_call(extra_args(n, target, arity, extra), target, arity),
{
    let f = |k: Node| with_extra_arg(k, target, arity, extra);
    let p = |k: Node| is_bare_call(k, target, arity);
    assert forall|k: Node| !k.any_kid(p) implies !(#[trigger] f(k)).any(p) by {
        let r = f(k);
        if r.any_kid(p) {
            let i = choose|i: int| 0 <= i < r.kids().len() && (#[trigger] r.kids()[i]).any(p);
            if is_bare_call(k, target, arity) && i == arity {
                assert(r.kids()[i] == extra);
            } else {
                assert(k.kids()[i] == r.kids()[i]);
                assert(k.any_kid(p));
            }
        }
    }
    n.lemma_map_clears(f, p);
}

/// Whether a model takes a function for the same with one more argument.
pub open spec fn takes_no_notice(
    m: crate::meaning::Model,
    target: FunctionID,
    arity: nat,
) -> bool {
    forall|ts: Seq<crate::types::Ty>, vs: Seq<crate::meaning::Val>, v: crate::meaning::Val|
        vs.len() == arity ==> #[trigger] (m.call)(target, ts, vs.push(v)) == (m.call)(
            target,
            ts,
            vs,
        )
}

/// Nothing but the new arguments changes: where the function takes no notice of them, the
/// expression has the value that it had.
pub proof fn law_new_arguments_change_nothing_else(
    n: Node,
    target: FunctionID,
    arity: nat,
    extra: Node,
    env: crate::meaning::Env,
    m: crate::meaning::Model,
)
    requires
        takes_no_notice(m, target, arity),
    ensures
        crate::meaning::eval(extra_args(n, target, arity, extra), env, m) == crate::meaning::eval(
            n,
            env,
            m,
        ),
{
    let f = |k: Node| with_extra_arg(k, target, arity, extra);
    assert forall|k: Node, e: crate::meaning::Env| #[trigger]
        crate::meaning::eval(f(k), e, m) == crate::meaning::eval(k, e, m) by {
        if is_bare_call(k, target, arity) {
            if let Node::Call { function, type_args, args } = k {
                let r = f(k);
                let vs = crate::meaning::values(k, e, m);
                assert(k.kids() == args && r.kids() == args.push(extra));
                assert(crate::meaning::values(r, e, m) =~= vs.push(
                    crate::meaning::eval(extra, e, m),
                ));
                assert(crate::meaning::eval(r, e, m) == (m.call)(
                    target,
                    type_args,
                    vs.push(crate::meaning::eval(extra, e, m)),
                ));
            }
        }
    }
    crate::written_meaning::lemma_map_means(n, f, env, m);
}

/// The placeholder calls nothing.
proof fn lemma_placeholder(target: FunctionID, arity: nat)
    ensures
        !has_bare_call(placeholder(), target, arity),
{
    let p = |k: Node| is_bare_call(k, target, arity);
    assert(placeholder().kids().len() == 0);
    assert(!placeholder().any_kid(p));
}

/// In each function that owes a proof at its calls of another one, every such call has a
/// placeholder for it; nothing else of it changes, and other functions stay.
pub proof fn law_every_call_owes_a_proof(
    p: Prog,
    ids: Seq<FunctionID>,
    target: FunctionID,
    arity: nat,
    id: FunctionID,
    env: crate::meaning::Env,
    m: crate::meaning::Model,
)
    requires
        forall|k: int| 0 <= k < ids.len() ==> p.has(#[trigger] ids[k]),
        p.has(id),
        takes_no_notice(m, target, arity),
    ensures
        ({
            let q = p.placed_in(ids, target, arity);
            &&& ids.contains(id) ==> !has_bare_call(q.func(id).body, target, arity)
            &&& !ids.contains(id) ==> q.func(id) == p.func(id)
            &&& crate::meaning::eval(q.func(id).body, env, m) == crate::meaning::eval(
                p.func(id).body,
                env,
                m,
            )
        }),
    decreases ids.len(),
{
    if ids.len() > 0 {
        let init = ids.drop_last();
        let last = ids.last();
        assert forall|k: int| 0 <= k < init.len() implies p.has(#[trigger] init[k]) by {
            assert(init[k] == ids[k]);
        }
        assert(p.has(ids[ids.len() - 1]));
        law_every_call_owes_a_proof(p, init, target, arity, id, env, m);
        p.lemma_placed_in(init, target, arity);
        let q = p.placed_in(init, target, arity);
        q.lemma_same_shape(p);
        let body = extra_args(q.func(last).body, target, arity, placeholder());
        q.lemma_with_body(last, body);
        lemma_placeholder(target, arity);
        law_every_call_is_given_its_argument(q.func(last).body, target, arity, placeholder());
        law_new_arguments_change_nothing_else(
            q.func(last).body,
            target,
            arity,
            placeholder(),
            env,
            m,
        );
        assert(ids.contains(id) <==> init.contains(id) || last == id) by {
            if ids.contains(id) {
                let j = choose|j: int| 0 <= j < ids.len() && ids[j] == id;
                if j < init.len() {
                    assert(init[j] == id);
                }
            }
            if init.contains(id) {
                let j = choose|j: int| 0 <= j < init.len() && init[j] == id;
                assert(ids[j] == id);
            }
            assert(ids[ids.len() - 1] == last);
        }
    }
}

} // verus!
