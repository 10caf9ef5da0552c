//! Threading of declared preconditions through callers that cannot state a
//! callee's precondition over their own parameters.

use crate::forwarding::{carries, EntryCall};
use crate::ir::{IRNode, Node};
use crate::program::{Func, Function, Prog, Program};
use crate::text::chop;
use crate::threading::{find_callers, is_spec_function, place, precond_prop, select, Pick};
use crate::traverse::{any_node, calls_function, contains_id, contains_name, Test};
use crate::types::{FunctionID, Name};
use vstd::prelude::*;

verus! {

/// Whether a precondition is declared for the function's name.
pub open spec fn declared(p: Prog, name: Name) -> bool {
    p.decls.precond.contains(crate::threading::value_name(name))
}

/// Whether a precondition is declared for the function's name.
fn is_declared(program: &Program, name: &String) -> (r: bool)
    ensures
        r == declared(program@, name@),
{
    contains_name(&program.lean_termination_decls.precond, &chop(name.as_str(), ".aborts"))
}

/// Whether a function has a declared precondition and owes a proof of one of the
/// functions that carry a callee's precondition, without being one of these.
pub open spec fn is_caller(p: Prog) -> spec_fn(FunctionID, Func) -> bool {
    |id: FunctionID, f: Func|
        !p.callee_requires_impls.contains(id) && declared(p, f.name) && f.body.any(
            |n: Node| crate::forwarding::is_entry_call(n, p.callee_requires_impls),
        )
}

/// The choice of such functions.
struct PrecondCallers<'a> {
    program: &'a Program,
}

impl<'a> Pick for PrecondCallers<'a> {
    closed spec fn picks(&self, id: FunctionID, f: Func) -> bool {
        is_caller(self.program@)(id, f)
    }

    fn pick(&self, id: FunctionID, f: &Function) -> (r: bool) {
        !contains_id(&self.program.callee_requires_impls, id) && is_declared(
            self.program,
            &f.name,
        ) && calls_g_with_placeholder(&f.body, &self.program.callee_requires_impls)
    }
}

/// Whether the body calls one of the functions with a placeholder as the last
/// argument.
pub fn calls_g_with_placeholder(body: &IRNode, g_ids: &Vec<FunctionID>) -> (r: bool)
    ensures
        r == body@.any(|n: Node| crate::forwarding::is_entry_call(n, g_ids@)),
{
    let t = EntryCall { ids: g_ids };
    proof {
        let f = |n: Node| Test::holds(&t, n);
        assert(f =~= (|n: Node| crate::forwarding::is_entry_call(n, g_ids@)));
    }
    any_node(body, &t)
}

/// The precondition that a function is to carry; there is none where it carries
/// one already, carries a loop invariant, or has no parameter to state one over.
pub open spec fn new_hpre(p: Prog, id: FunctionID) -> Option<Name> {
    if crate::forwarding::has_param(p.proof_params_of(id), "hpre"@) || crate::program::slot(
        p.loop_inv_hyps,
        id,
    ) is Some {
        None
    } else {
        crate::threading::precond_of(p, id)
    }
}

/// The program with a precondition on one function, where it is to carry one.
pub open spec fn hpre_threaded(p: Prog, id: FunctionID) -> Prog {
    match new_hpre(p, id) {
        Some(prop) => p.with_proof_param(id, "hpre"@, prop),
        None => p,
    }
}

/// Puts a precondition on one function, where it is to carry one.
fn thread_hpre(program: &mut Program, id: FunctionID) -> (r: bool)
    requires
        old(program)@.has(id),
    ensures
        r == (new_hpre(old(program)@, id) is Some),
        final(program)@ == hpre_threaded(old(program)@, id),
        final(program)@.functions == old(program)@.functions,
{
    if carries(program, id, "hpre") || program.has_hyp(id) {
        return false;
    }
    match precond_prop(program, id) {
        Some(prop) => {
            program.add_proof_param(id, "hpre".to_owned(), prop);
            true
        },
        None => false,
    }
}

/// The program after one caller of a threaded function was handled: its calls owe
/// a proof, and it carries a precondition itself where one is declared for it.
pub open spec fn caller_handled(p: Prog, caller: FunctionID, id: FunctionID) -> Prog {
    let q = p.placed(caller, id, p.arity(id));
    if declared(q, q.func(caller).name) {
        hpre_threaded(q, caller)
    } else {
        q
    }
}

/// Whether the climb goes on to a caller.
pub open spec fn goes_on(p: Prog, caller: FunctionID, id: FunctionID) -> bool {
    let q = p.placed(caller, id, p.arity(id));
    declared(q, q.func(caller).name) && new_hpre(q, caller) is Some
}

/// The program and the callers to go on to, after each of some callers was
/// handled.
pub open spec fn callers_handled(p: Prog, callers: Seq<FunctionID>, id: FunctionID) -> (
    Prog,
    Seq<FunctionID>,
)
    decreases callers.len(),
{
    if callers.len() == 0 {
        (p, Seq::empty())
    } else {
        let (q, more) = callers_handled(p, callers.drop_last(), id);
        let c = callers.last();
        (
            caller_handled(q, c, id),
            if goes_on(q, c, id) {
                more.push(c)
            } else {
                more
            },
        )
    }
}

/// The program after a threaded function was visited, before its callers are
/// handled: its name is recorded, and its calls of itself owe a proof.
pub open spec fn visited(p: Prog, id: FunctionID) -> Prog {
    let q = p.with_entry_impl(p.func(id).name);
    if q.func(id).body.calls(id) {
        q.placed(id, id, q.arity(id))
    } else {
        q
    }
}

/// The program and the callers to go on to, after a threaded function was
/// processed. A specification ends the climb.
pub open spec fn processed(p: Prog, id: FunctionID) -> (Prog, Seq<FunctionID>) {
    let q = visited(p, id);
    if crate::threading::spec_function(q, id) {
        (q, Seq::empty())
    } else {
        callers_handled(q, crate::threading::callers_of(q, id), id)
    }
}

/// The program after the precondition was propagated from the functions of a
/// worklist, its last first, to the callers of each.
pub open spec fn climbed(p: Prog, work: Seq<FunctionID>, done: Seq<FunctionID>) -> Prog
    decreases crate::threading::remaining(p.functions, done), work.len(),
{
    if work.len() == 0 {
        p
    } else {
        let id = work.last();
        let rest = work.drop_last();
        if done.contains(id) || !p.has(id) {
            climbed(p, rest, done)
        } else {
            let (next, more) = processed(p, id);
            proof {
                lemma_processed(p, id);
                crate::threading::lemma_progress(p, next, done, id);
            }
            climbed(next, rest + more, done.push(id))
        }
    }
}

/// Handling callers leaves the shape of the program as it is.
pub proof fn lemma_callers_handled(p: Prog, callers: Seq<FunctionID>, id: FunctionID)
    requires
        forall|k: int| 0 <= k < callers.len() ==> p.has(#[trigger] callers[k]),
    ensures
        callers_handled(p, callers, id).0.same_shape(p),
        forall|k: int| #![trigger callers_handled(p, callers, id).1[k]]
            0 <= k < callers_handled(p, callers, id).1.len() ==> p.has(
                callers_handled(p, callers, id).1[k],
            ),
    decreases callers.len(),
{
    if callers.len() > 0 {
        let init = callers.drop_last();
        assert forall|k: int| 0 <= k < init.len() implies p.has(#[trigger] init[k]) by {
            assert(init[k] == callers[k]);
        }
        lemma_callers_handled(p, init, id);
        let (q, more) = callers_handled(p, init, id);
        q.lemma_same_shape(p);
        let c = callers.last();
        assert(p.has(callers[callers.len() - 1]));
        let body = crate::threading::extra_args(
            q.func(c).body,
            id,
            q.arity(id),
            crate::threading::placeholder(),
        );
        q.lemma_with_body(c, body);
        let q2 = q.placed(c, id, q.arity(id));
        assert(caller_handled(q, c, id).functions == q2.functions);
        assert(caller_handled(q, c, id).same_shape(p)) by {
            assert forall|i: int| 0 <= i < q2.functions.len() implies (
            #[trigger] q2.functions[i]).0 == p.functions[i].0 && q2.functions[i].1 == (Func {
                body: q2.functions[i].1.body,
                ..p.functions[i].1
            }) by {
                assert(q2.functions[i].0 == q.functions[i].0);
            }
        }
        let all = callers_handled(p, callers, id).1;
        assert forall|k: int| #![trigger all[k]] 0 <= k < all.len() implies p.has(all[k]) by {
            if k < more.len() {
                assert(all[k] == more[k]);
            }
        }
    }
}

/// Processing a function leaves the shape of the program as it is.
pub proof fn lemma_processed(p: Prog, id: FunctionID)
    requires
        p.has(id),
    ensures
        visited(p, id).same_shape(p),
        processed(p, id).0.same_shape(p),
        forall|k: int| #![trigger processed(p, id).1[k]]
            0 <= k < processed(p, id).1.len() ==> p.has(processed(p, id).1[k]),
{
    let q0 = p.with_entry_impl(p.func(id).name);
    assert(q0.functions == p.functions);
    q0.lemma_with_body(
        id,
        crate::threading::extra_args(
            q0.func(id).body,
            id,
            q0.arity(id),
            crate::threading::placeholder(),
        ),
    );
    let q = visited(p, id);
    assert(q.same_shape(p));
    q.lemma_same_shape(p);
    crate::threading::lemma_callers_exist(q, id);
    lemma_callers_handled(q, crate::threading::callers_of(q, id), id);
    let r = processed(p, id);
    assert(r.0.same_shape(p)) by {
        assert forall|i: int| 0 <= i < r.0.functions.len() implies (#[trigger] r.0.functions[i]).0
            == p.functions[i].0 && r.0.functions[i].1 == (Func {
            body: r.0.functions[i].1.body,
            ..p.functions[i].1
        }) by {
            assert(r.0.functions[i].0 == q.functions[i].0);
        }
    }
    assert forall|k: int| #![trigger r.1[k]] 0 <= k < r.1.len() implies p.has(r.1[k]) by {
        assert(q.has(r.1[k]));
    }
}

/// Processes a threaded function and returns the callers to go on to.
fn process(program: &mut Program, id: FunctionID) -> (more: Vec<FunctionID>)
    requires
        old(program)@.has(id),
    ensures
        (final(program)@, more@) == processed(old(program)@, id),
{
    let ghost start = program@;
    proof {
        lemma_processed(start, id);
    }
    let name = program.function(id).name.clone();
    program.add_entry_impl(&name);
    assert(program@.functions == start.functions);
    let arity: usize = program.function(id).signature.parameters.len();
    if calls_function(&program.function(id).body, id) {
        place(program, id, id, arity);
    }
    let ghost q = program@;
    assert(q == visited(start, id));
    let mut more: Vec<FunctionID> = Vec::new();
    proof {
        q.lemma_same_shape(start);
    }
    if is_spec_function(program, id) {
        assert(more@ =~= Seq::empty());
        return more;
    }
    let callers = find_callers(program, id);
    let mut i: usize = 0;
    assert(callers@.subrange(0, 0) =~= Seq::empty());
    assert(more@ =~= Seq::empty());
    while i < callers.len()
        invariant
            i <= callers.len(),
            q.has(id),
            forall|k: int| 0 <= k < callers@.len() ==> q.has(#[trigger] callers@[k]),
            (program@, more@) == callers_handled(q, callers@.subrange(0, i as int), id),
            program@.same_shape(q),
        decreases callers.len() - i,
    {
        let ghost before = program@;
        proof {
            program@.lemma_same_shape(q);
            let next = callers@.subrange(0, i + 1);
            assert(next.drop_last() =~= callers@.subrange(0, i as int));
            assert(next.last() == callers@[i as int]);
            assert forall|k: int| 0 <= k < next.len() implies q.has(#[trigger] next[k]) by {
                assert(next[k] == callers@[k]);
            }
            lemma_callers_handled(q, next, id);
        }
        let caller: FunctionID = callers[i];
        let id_arity: usize = program.function(id).signature.parameters.len();
        place(program, caller, id, id_arity);
        proof {
            program@.lemma_same_shape(before);
        }
        if is_declared(program, &program.function(caller).name) {
            if thread_hpre(program, caller) {
                more.push(caller);
            }
        }
        i += 1;
    }
    assert(callers@.subrange(0, i as int) =~= callers@);
    more
}

/// Propagates a precondition from one function to its callers.
fn climb(program: &mut Program, id: FunctionID)
    requires
        old(program)@.has(id),
    ensures
        final(program)@ == climbed(old(program)@, seq![id], Seq::empty()),
        final(program)@.same_shape(old(program)@),
{
    let ghost start = program@;
    let ghost goal = climbed(program@, seq![id], Seq::empty());
    let mut work: Vec<FunctionID> = Vec::new();
    work.push(id);
    assert(work@ =~= seq![id]);
    let mut done: Vec<FunctionID> = Vec::new();
    assert(done@ =~= Seq::empty());
    loop
        invariant
            climbed(program@, work@, done@) == goal,
            forall|k: int| 0 <= k < work@.len() ==> program@.has(#[trigger] work@[k]),
            program@.same_shape(start),
        ensures
            program@ == goal,
            program@.same_shape(start),
        decreases crate::threading::remaining(program@.functions, done@), work.len(),
    {
        let ghost before = program@;
        let ghost list = work@;
        match work.pop() {
            None => {
                break;
            },
            Some(x) => {
                assert(list[list.len() - 1] == x);
                assert(program@.has(x));
                assert(forall|k: int| 0 <= k < work@.len() ==> work@[k] == #[trigger] list[k]);
                assert(forall|k: int| 0 <= k < work@.len() ==> program@.has(#[trigger] work@[k]));
                if !contains_id(&done, x) {
                    let ghost rest = work@;
                    let mut more = process(program, x);
                    proof {
                        lemma_processed(before, x);
                        crate::threading::lemma_progress(before, program@, done@, x);
                        program@.lemma_same_shape(before);
                    }
                    let ghost found = more@;
                    done.push(x);
                    work.append(&mut more);
                    assert(work@ =~= rest + found);
                    assert forall|k: int| 0 <= k < work@.len() implies program@.has(
                        #[trigger] work@[k],
                    ) by {
                        if k < rest.len() {
                            assert(work@[k] == rest[k]);
                        } else {
                            assert(work@[k] == found[k - rest.len()]);
                            assert(before.has(processed(before, x).1[k - rest.len()]));
                        }
                    }
                }
            },
        }
    }
}

impl Prog {
    /// The program with a function among those whose calls are discharged from a
    /// declared precondition.
    pub open spec fn with_precond_caller(self, id: FunctionID) -> Prog {
        if self.callee_requires_precond_callers.contains(id) {
            self
        } else {
            Prog {
                callee_requires_precond_callers: self.callee_requires_precond_callers.push(id),
                ..self
            }
        }
    }
}

/// The program with one function's declared precondition threaded.
pub open spec fn caller_threaded(p: Prog, id: FunctionID) -> Prog {
    match new_hpre(p, id) {
        Some(prop) => climbed(
            p.with_proof_param(id, "hpre"@, prop).with_precond_caller(id),
            seq![id],
            Seq::empty(),
        ),
        None => p,
    }
}

/// The program with the declared precondition of each of some functions threaded.
pub open spec fn all_callers_threaded(p: Prog, todo: Seq<FunctionID>) -> Prog
    decreases todo.len(),
{
    if todo.len() == 0 {
        p
    } else {
        caller_threaded(all_callers_threaded(p, todo.drop_last()), todo.last())
    }
}

/// The program with the declared preconditions threaded.
pub open spec fn preconds_threaded(p: Prog) -> Prog {
    if p.decls.precond.len() == 0 || p.callee_requires_impls.len() == 0 {
        p
    } else {
        all_callers_threaded(p, crate::threading::selected(p.functions, is_caller(p)))
    }
}

/// Threads one function's declared precondition.
fn thread_caller(program: &mut Program, id: FunctionID)
    requires
        old(program)@.has(id),
    ensures
        final(program)@ == caller_threaded(old(program)@, id),
        final(program)@.same_shape(old(program)@),
{
    let ghost start = program@;
    if thread_hpre(program, id) {
        let ghost before = program@;
        if !contains_id(&program.callee_requires_precond_callers, id) {
            program.callee_requires_precond_callers.push(id);
        }
        assert(program@ =~= before.with_precond_caller(id));
        assert(program@.functions == start.functions);
        climb(program, id);
    }
}

/// Threads the declared preconditions through the program.
pub fn thread_callee_requires_precond(program: &mut Program)
    requires
        old(program)@.linked(),
    ensures
        final(program)@ == preconds_threaded(old(program)@),
        final(program)@.same_shape(old(program)@),
{
    assert(program@.decls.precond.len() == program.lean_termination_decls.precond@.len());
    if program.lean_termination_decls.precond.len() == 0 || program.callee_requires_impls.len()
        == 0 {
        return;
    }
    let ghost start = program@;
    let todo = {
        let t = PrecondCallers { program: &*program };
        assert((|k: FunctionID, f: Func| t.picks(k, f)) =~= is_caller(program@));
        select(program, &t)
    };
    let mut i: usize = 0;
    assert(todo@.subrange(0, 0) =~= Seq::empty());
    while i < todo.len()
        invariant
            i <= todo.len(),
            forall|k: int| 0 <= k < todo@.len() ==> start.has(#[trigger] todo@[k]),
            program@ == all_callers_threaded(start, todo@.subrange(0, i as int)),
            program@.same_shape(start),
        decreases todo.len() - i,
    {
        proof {
            program@.lemma_same_shape(start);
            let next = todo@.subrange(0, i + 1);
            assert(next.drop_last() =~= todo@.subrange(0, i as int));
            assert(next.last() == todo@[i as int]);
        }
        thread_caller(program, todo[i]);
        i += 1;
    }
    assert(todo@.subrange(0, i as int) =~= todo@);
}

/// Without a declared precondition the program stays as it is.
pub proof fn law_no_declaration_no_change(p: Prog)
    requires
        p.decls.precond.len() == 0,
    ensures
        preconds_threaded(p) == p,
{
}

} // verus!
