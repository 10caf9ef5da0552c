//! Threading of the precondition under which a loop is entered.

use crate::forwarding::{find_spec_module, forward, parameter_names, EntryCall};
use crate::ir::{IRNode, Node};
use crate::program::{Func, Function, Prog, Program};
use crate::text::{append, chop, join};
use crate::threading::{select, Pick};
use crate::traverse::any_node;
use crate::types::{FunctionID, Name};
use vstd::prelude::*;

verus! {

/// The functions that carry an invariant hypothesis.
pub open spec fn hyp_keys(p: Prog) -> Seq<FunctionID> {
    Seq::new(p.loop_inv_hyps.len(), |i: int| p.loop_inv_hyps[i].0)
}

/// Whether a function enters a loop: it calls one of the helpers with a
/// placeholder as the last argument.
pub open spec fn enters_loop(helpers: Seq<FunctionID>) -> spec_fn(FunctionID, Func) -> bool {
    |id: FunctionID, f: Func|
        f.body.any(|n: Node| crate::forwarding::is_entry_call(n, helpers))
}

/// The choice of the functions that enter a loop.
struct Entering<'a> {
    helpers: &'a Vec<FunctionID>,
}

impl<'a> Pick for Entering<'a> {
    closed spec fn picks(&self, id: FunctionID, f: Func) -> bool {
        enters_loop(self.helpers@)(id, f)
    }

    fn pick(&self, id: FunctionID, f: &Function) -> (r: bool) {
        has_entry_call(&f.body, self.helpers)
    }
}

/// Whether the body calls one of the helpers with a placeholder as the last
/// argument.
pub fn has_entry_call(body: &IRNode, helper_ids: &Vec<FunctionID>) -> (r: bool)
    ensures
        r == body@.any(|n: Node| crate::forwarding::is_entry_call(n, helper_ids@)),
{
    let t = EntryCall { ids: helper_ids };
    proof {
        let f = |n: Node| crate::traverse::Test::holds(&t, n);
        assert(f =~= (|n: Node| crate::forwarding::is_entry_call(n, helper_ids@)));
    }
    any_node(body, &t)
}

/// The name of a specification's precondition.
pub open spec fn requires_of(base: Name) -> Name {
    base + "_spec.requires"@
}

/// The program with the entry precondition threaded onto one function. Where the
/// function has no specification to name it, only the function's name is
/// recorded.
pub open spec fn entry_threaded(p: Prog, id: FunctionID) -> Prog {
    let f = p.func(id);
    let base = crate::threading::value_name(f.name);
    match crate::forwarding::spec_module(p, base, p.module(f.module_id).name) {
        None => p.with_entry_impl(f.name),
        Some(m) => {
            let prop = requires_of(base) + " "@ + crate::text::joined(
                crate::forwarding::param_names(f.signature.parameters),
                " "@,
            );
            crate::forwarding::forwarded(
                p.with_proof_param(id, "hpre"@, prop).with_entry_impl(f.name),
                id,
                requires_of(base),
                Some(m),
            )
        },
    }
}

/// The program with the entry precondition threaded onto each of some functions.
pub open spec fn entries_threaded(p: Prog, ids: Seq<FunctionID>) -> Prog
    decreases ids.len(),
{
    if ids.len() == 0 {
        p
    } else {
        entry_threaded(entries_threaded(p, ids.drop_last()), ids.last())
    }
}

/// The program with the entry preconditions of its loops threaded.
pub open spec fn loop_entries_threaded(p: Prog) -> Prog {
    if p.loop_inv_hyps.len() == 0 {
        p
    } else {
        entries_threaded(
            p,
            crate::threading::selected(p.functions, enters_loop(hyp_keys(p))),
        )
    }
}

/// Threads the entry precondition onto one function.
fn thread_entry(program: &mut Program, id: FunctionID)
    requires
        old(program)@.has(id),
        old(program)@.has_module(old(program)@.func(id).module_id),
    ensures
        final(program)@ == entry_threaded(old(program)@, id),
        final(program)@.same_shape(old(program)@),
{
    let ghost start = program@;
    let name = program.function(id).name.clone();
    let module_name = program.module(program.function(id).module_id).name.clone();
    let base = chop(name.as_str(), ".aborts");
    let hook = append(base.as_str(), "_spec.requires");
    let params = parameter_names(&program.function(id).signature.parameters);
    match find_spec_module(program, &base, &module_name) {
        None => {
            program.add_entry_impl(&name);
        },
        Some(m) => {
            let list = join(&params, " ");
            let prop = append(append(hook.as_str(), " ").as_str(), list.as_str());
            program.add_proof_param(id, "hpre".to_owned(), prop);
            program.add_entry_impl(&name);
            assert(program@.functions == start.functions);
            forward(program, id, &hook, Some(m));
        },
    }
}

/// The modules that functions stand in are kept by a change of bodies.
pub open spec fn same_homes(p: Prog, q: Prog) -> bool {
    q.modules == p.modules && q.same_shape(p) && forall|i: int|
        0 <= i < q.functions.len() ==> (#[trigger] q.functions[i]).1.module_id
            == p.functions[i].1.module_id
}

/// Functions keep their modules when one gets another body.
pub proof fn lemma_body_keeps_homes(p: Prog, id: FunctionID, body: Node)
    requires
        p.has(id),
    ensures
        same_homes(p, p.with_body(id, body)),
{
    p.lemma_with_body(id, body);
    let q = p.with_body(id, body);
    let i = choose|k: int| crate::program::is_slot(p.functions, id, k);
    assert(crate::program::is_slot(p.functions, id, i));
    crate::program::lemma_slot(p.functions, id, i);
    assert(q.functions =~= p.functions.update(i, (id, Func { body, ..p.func(id) })));
}

/// Functions keep their modules when callers hand on a precondition.
pub proof fn lemma_forwarded_keeps_homes(
    p: Prog,
    callers: Seq<FunctionID>,
    target: FunctionID,
    hook: Name,
    module: Option<crate::types::ModuleID>,
    arity: nat,
)
    requires
        forall|k: int| 0 <= k < callers.len() ==> p.has(#[trigger] callers[k]),
    ensures
        same_homes(
            p,
            crate::forwarding::forwarded_in(p, callers, target, hook, module, arity),
        ),
    decreases callers.len(),
{
    if callers.len() > 0 {
        let init = callers.drop_last();
        assert forall|k: int| 0 <= k < init.len() implies p.has(#[trigger] init[k]) by {
            assert(init[k] == callers[k]);
        }
        lemma_forwarded_keeps_homes(p, init, target, hook, module, arity);
        let q = crate::forwarding::forwarded_in(p, init, target, hook, module, arity);
        q.lemma_same_shape(p);
        let c = callers.last();
        assert(p.has(callers[callers.len() - 1]));
        match crate::forwarding::forwarded_args(q.func(c), target, module) {
            Some(args) => {
                let q2 = if crate::forwarding::has_param(q.proof_params_of(c), "hpre"@) {
                    q
                } else {
                    q.with_proof_param(
                        c,
                        "hpre"@,
                        hook + " "@ + crate::text::joined(args, " "@),
                    )
                };
                assert(q2.functions == q.functions);
                lemma_body_keeps_homes(
                    q2,
                    c,
                    crate::threading::extra_args(
                        q2.func(c).body,
                        target,
                        arity,
                        Node::Var("hpre"@),
                    ),
                );
            },
            None => {
                lemma_body_keeps_homes(
                    q,
                    c,
                    crate::threading::extra_args(
                        q.func(c).body,
                        target,
                        arity,
                        crate::threading::placeholder(),
                    ),
                );
            },
        }
    }
}

/// Functions keep their modules when an entry precondition is threaded.
pub proof fn lemma_entry_keeps_homes(p: Prog, id: FunctionID)
    requires
        p.has(id),
    ensures
        same_homes(p, entry_threaded(p, id)),
{
    let f = p.func(id);
    let base = crate::threading::value_name(f.name);
    match crate::forwarding::spec_module(p, base, p.module(f.module_id).name) {
        None => {},
        Some(m) => {
            let prop = requires_of(base) + " "@ + crate::text::joined(
                crate::forwarding::param_names(f.signature.parameters),
                " "@,
            );
            let q = p.with_proof_param(id, "hpre"@, prop).with_entry_impl(f.name);
            assert(q.functions == p.functions);
            crate::threading::lemma_callers_exist(q, id);
            lemma_forwarded_keeps_homes(
                q,
                crate::threading::callers_of(q, id),
                id,
                requires_of(base),
                Some(m),
                q.arity(id),
            );
        },
    }
}

/// A function's module exists where each function's module does.
pub proof fn lemma_home(p: Prog, q: Prog, id: FunctionID)
    requires
        p.linked(),
        same_homes(p, q),
        p.has(id),
    ensures
        q.has(id),
        q.has_module(q.func(id).module_id),
{
    q.lemma_same_shape(p);
    let i = choose|k: int| crate::program::is_slot(q.functions, id, k);
    assert(crate::program::is_slot(q.functions, id, i));
    crate::program::lemma_slot(q.functions, id, i);
    assert(q.functions[i].1.module_id == p.functions[i].1.module_id);
}

/// Threads the entry preconditions of the program's loops.
pub fn thread_loop_inv_entry(program: &mut Program)
    requires
        old(program)@.linked(),
    ensures
        final(program)@ == loop_entries_threaded(old(program)@),
        final(program)@.same_shape(old(program)@),
{
    if program.loop_inv_hyps.len() == 0 {
        assert(program@.loop_inv_hyps.len() == 0);
        return;
    }
    assert(program@.loop_inv_hyps.len() > 0);
    let ghost start = program@;
    let mut helper_ids: Vec<FunctionID> = Vec::new();
    let mut k: usize = 0;
    while k < program.loop_inv_hyps.len()
        invariant
            k <= program.loop_inv_hyps.len(),
            helper_ids@.len() == k,
            program@ == start,
            forall|j: int| 0 <= j < k ==> helper_ids@[j] == hyp_keys(start)[j],
        decreases program.loop_inv_hyps.len() - k,
    {
        helper_ids.push(program.loop_inv_hyps[k].0);
        k += 1;
    }
    assert(helper_ids@ =~= hyp_keys(start));
    let impl_ids = {
        let t = Entering { helpers: &helper_ids };
        assert((|k: FunctionID, f: Func| t.picks(k, f)) =~= enters_loop(hyp_keys(start)));
        select(program, &t)
    };
    let mut i: usize = 0;
    assert(impl_ids@.subrange(0, 0) =~= Seq::empty());
    while i < impl_ids.len()
        invariant
            i <= impl_ids.len(),
            start.linked(),
            forall|k: int| 0 <= k < impl_ids@.len() ==> start.has(#[trigger] impl_ids@[k]),
            program@ == entries_threaded(start, impl_ids@.subrange(0, i as int)),
            same_homes(start, program@),
        decreases impl_ids.len() - i,
    {
        proof {
            let next = impl_ids@.subrange(0, i + 1);
            assert(next.drop_last() =~= impl_ids@.subrange(0, i as int));
            assert(next.last() == impl_ids@[i as int]);
            lemma_home(start, program@, impl_ids@[i as int]);
            lemma_entry_keeps_homes(program@, impl_ids@[i as int]);
        }
        thread_entry(program, impl_ids[i]);
        i += 1;
    }
    assert(impl_ids@.subrange(0, i as int) =~= impl_ids@);
}

/// A program without invariant hypotheses stays as it is.
pub proof fn law_no_hypothesis_no_change(p: Prog)
    requires
        p.loop_inv_hyps.len() == 0,
    ensures
        loop_entries_threaded(p) == p,
{
}

} // verus!
