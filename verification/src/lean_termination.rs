//! Threading of declared loop invariants.
//!
//! A termination file declares a hypothesis for a recursive helper. The helper
//! then carries the hypothesis, each call of it owes a proof, and a function
//! outside the helper's family that calls it carries a precondition, which its
//! own callers owe in turn.


use crate::program::{Func, Function, Prog, Program};
use crate::text::{append, chop, split_at_last};
use crate::threading::{
    find_callers, find_named, is_spec_function, place, place_in, precond_prop, select, Pick,
};
use crate::traverse::{calls_function, calls_one_of, contains_id, contains_name};
use crate::types::{FunctionID, ModuleID, Name};
use vstd::prelude::*;

verus! {

/// The name of the function that a loop helper belongs to: without `.aborts`,
/// without `.after`, and without what stands behind the last `.while_`.
pub open spec fn base_of(name: Name) -> Name {
    let n = crate::text::chopped(crate::text::chopped(name, ".aborts"@), ".after"@);
    if crate::text::occurs(n, ".while_"@) {
        crate::text::before_last(n, ".while_"@)
    } else {
        n
    }
}

/// The name of the function that a loop helper belongs to.
pub fn base_name(name: &String) -> (r: String)
    ensures
        r@ == base_of(name@),
{
    let n = chop(chop(name.as_str(), ".aborts").as_str(), ".after");
    proof {
        reveal_strlit(".while_");
    }
    match split_at_last(n.as_str(), ".while_") {
        Some((a, b)) => {
            proof {
                crate::text::lemma_split_last(n@, ".while_"@, a@, b@);
            }
            a
        },
        None => n,
    }
}

/// Whether a function is a declared, self-recursive helper that no pass has
/// threaded yet.
pub open spec fn is_target(p: Prog) -> spec_fn(FunctionID, Func) -> bool {
    |id: FunctionID, f: Func|
        p.decls.loop_hyp.contains(f.name) && f.mutual_group_id is Some
            && crate::program::slot(p.loop_inv_hyps, id) is None && f.body.calls(id)
}

/// The choice of the helpers to thread.
struct Targets<'a> {
    program: &'a Program,
}

impl<'a> Pick for Targets<'a> {
    closed spec fn picks(&self, id: FunctionID, f: Func) -> bool {
        is_target(self.program@)(id, f)
    }

    fn pick(&self, id: FunctionID, f: &Function) -> (r: bool) {
        contains_name(&self.program.lean_termination_decls.loop_hyp, &f.name)
            && f.mutual_group_id.is_some() && !self.program.has_hyp(id) && calls_function(
            &f.body,
            id,
        )
    }
}

/// Whether a function of the module calls one of the helpers without being one,
/// and belongs to the family `base` exactly if `inside` says so.
pub open spec fn is_helper_caller(
    helpers: Seq<FunctionID>,
    module: ModuleID,
    base: Name,
    inside: bool,
) -> spec_fn(FunctionID, Func) -> bool {
    |id: FunctionID, f: Func|
        !helpers.contains(id) && f.module_id == module && f.body.calls_one_of(helpers) && (base_of(
            f.name,
        ) == base) == inside
}

/// The choice of the callers of the helpers.
struct HelperCallers<'a> {
    helpers: &'a Vec<FunctionID>,
    module: ModuleID,
    base: &'a String,
    inside: bool,
}

impl<'a> Pick for HelperCallers<'a> {
    closed spec fn picks(&self, id: FunctionID, f: Func) -> bool {
        is_helper_caller(self.helpers@, self.module, self.base@, self.inside)(id, f)
    }

    fn pick(&self, id: FunctionID, f: &Function) -> (r: bool) {
        let family = base_name(&f.name) == *self.base;
        !contains_id(self.helpers, id) && f.module_id == self.module && calls_one_of(
            &f.body,
            self.helpers,
        ) && family == self.inside
    }
}

/// The callers of the helpers that are in the family `base`, or out of it.
pub open spec fn helper_callers(
    p: Prog,
    helpers: Seq<FunctionID>,
    module: ModuleID,
    base: Name,
    inside: bool,
) -> Seq<FunctionID> {
    crate::threading::selected(p.functions, is_helper_caller(helpers, module, base, inside))
}

/// The callers of the helpers that are in the family `base`, or out of it.
fn find_helper_callers(
    program: &Program,
    helpers: &Vec<FunctionID>,
    module: ModuleID,
    base: &String,
    inside: bool,
) -> (r: Vec<FunctionID>)
    ensures
        r@ == helper_callers(program@, helpers@, module, base@, inside),
        forall|k: int| 0 <= k < r@.len() ==> program@.has(#[trigger] r@[k]),
{
    let t = HelperCallers { helpers, module, base, inside };
    assert((|k: FunctionID, f: Func| t.picks(k, f)) =~= is_helper_caller(
        helpers@,
        module,
        base@,
        inside,
    ));
    select(program, &t)
}

/// The program with a placeholder at each call of one of the helpers in each of
/// some functions.
pub open spec fn placed_all(p: Prog, ids: Seq<FunctionID>, helpers: Seq<FunctionID>) -> Prog
    decreases ids.len(),
{
    if ids.len() == 0 {
        p
    } else {
        let q = placed_all(p, ids.drop_last(), helpers);
        placed_each(q, ids.last(), helpers)
    }
}

/// The program with a placeholder at each call of one of the helpers in one
/// function.
pub open spec fn placed_each(p: Prog, id: FunctionID, helpers: Seq<FunctionID>) -> Prog
    decreases helpers.len(),
{
    if helpers.len() == 0 {
        p
    } else {
        let q = placed_each(p, id, helpers.drop_last());
        q.placed(id, helpers.last(), q.arity(helpers.last()))
    }
}

/// Adds a placeholder at each call of one of the helpers in one function.
fn place_each(program: &mut Program, id: FunctionID, helpers: &Vec<FunctionID>)
    requires
        old(program)@.has(id),
        forall|k: int| 0 <= k < helpers@.len() ==> old(program)@.has(#[trigger] helpers@[k]),
    ensures
        final(program)@ == placed_each(old(program)@, id, helpers@),
        final(program)@.same_shape(old(program)@),
{
    let ghost start = program@;
    let mut i: usize = 0;
    assert(helpers@.subrange(0, 0) =~= Seq::empty());
    while i < helpers.len()
        invariant
            i <= helpers.len(),
            start.has(id),
            forall|k: int| 0 <= k < helpers@.len() ==> start.has(#[trigger] helpers@[k]),
            program@ == placed_each(start, id, helpers@.subrange(0, i as int)),
            program@.same_shape(start),
        decreases helpers.len() - i,
    {
        proof {
            program@.lemma_same_shape(start);
            let next = helpers@.subrange(0, i + 1);
            assert(next.drop_last() =~= helpers@.subrange(0, i as int));
            assert(next.last() == helpers@[i as int]);
        }
        let arity: usize = program.function(helpers[i]).signature.parameters.len();
        place(program, id, helpers[i], arity);
        i += 1;
    }
    assert(helpers@.subrange(0, i as int) =~= helpers@);
}

/// Adds a placeholder at each call of one of the helpers in each of some
/// functions.
fn place_all(program: &mut Program, ids: &Vec<FunctionID>, helpers: &Vec<FunctionID>)
    requires
        forall|k: int| 0 <= k < ids@.len() ==> old(program)@.has(#[trigger] ids@[k]),
        forall|k: int| 0 <= k < helpers@.len() ==> old(program)@.has(#[trigger] helpers@[k]),
    ensures
        final(program)@ == placed_all(old(program)@, ids@, helpers@),
        final(program)@.same_shape(old(program)@),
{
    let ghost start = program@;
    let mut i: usize = 0;
    assert(ids@.subrange(0, 0) =~= Seq::empty());
    while i < ids.len()
        invariant
            i <= ids.len(),
            forall|k: int| 0 <= k < ids@.len() ==> start.has(#[trigger] ids@[k]),
            forall|k: int| 0 <= k < helpers@.len() ==> start.has(#[trigger] helpers@[k]),
            program@ == placed_all(start, ids@.subrange(0, i as int), helpers@),
            program@.same_shape(start),
        decreases ids.len() - i,
    {
        proof {
            program@.lemma_same_shape(start);
            let next = ids@.subrange(0, i + 1);
            assert(next.drop_last() =~= ids@.subrange(0, i as int));
            assert(next.last() == ids@[i as int]);
        }
        place_each(program, ids[i], helpers);
        i += 1;
    }
    assert(ids@.subrange(0, i as int) =~= ids@);
}

/// Whether a function carries or is declared to carry a loop invariant.
pub open spec fn loop_threaded(p: Prog, id: FunctionID) -> bool {
    crate::program::slot(p.loop_inv_hyps, id) is Some || p.decls.loop_hyp.contains(p.func(id).name)
}

/// The program with a precondition on one function: the function carries it, its
/// name is recorded, and its calls of itself owe a proof.
pub open spec fn with_precond(p: Prog, id: FunctionID, prop: Name) -> Prog {
    let q = p.with_proof_param(id, "hpre"@, prop).with_entry_impl(p.func(id).name);
    q.placed(id, id, q.arity(id))
}

/// Whether processing the function goes on to its callers: it does, unless the function
/// is a specification, or carries no loop invariant and has no parameter to state a
/// precondition over.
pub open spec fn climbs(p: Prog, id: FunctionID) -> bool {
    !crate::threading::spec_function(p, id) && (loop_threaded(p, id)
        || crate::threading::precond_of(p, id) is Some)
}

/// The program after one function was processed, before its callers are. A
/// specification discharges the preconditions of what it calls, and gets none itself.
pub open spec fn visited(p: Prog, id: FunctionID) -> Prog {
    if loop_threaded(p, id) || crate::threading::spec_function(p, id) {
        p
    } else {
        match crate::threading::precond_of(p, id) {
            Some(prop) => with_precond(p, id, prop),
            None => p,
        }
    }
}

/// The program after the precondition was propagated from the functions of a
/// worklist, its last first, to the callers of each.
pub open spec fn propagated(p: Prog, work: Seq<FunctionID>, done: Seq<FunctionID>) -> Prog
    decreases crate::threading::remaining(p.functions, done), work.len(),
{
    if work.len() == 0 {
        p
    } else {
        let id = work.last();
        let rest = work.drop_last();
        if done.contains(id) || !p.has(id) {
            propagated(p, rest, done)
        } else {
            let q = visited(p, id);
            let callers = if climbs(p, id) {
                crate::threading::callers_of(q, id)
            } else {
                Seq::empty()
            };
            let next = q.placed_in(callers, id, q.arity(id));
            proof {
                lemma_visit_progress(p, done, id);
            }
            propagated(next, rest + callers, done.push(id))
        }
    }
}

/// A visited program has the same functions, and one fewer is left.
pub proof fn lemma_visit_progress(p: Prog, done: Seq<FunctionID>, id: FunctionID)
    requires
        p.has(id),
        !done.contains(id),
    ensures
        ({
            let q = visited(p, id);
            let callers = if climbs(p, id) {
                crate::threading::callers_of(q, id)
            } else {
                Seq::empty()
            };
            let next = q.placed_in(callers, id, q.arity(id));
            &&& q.same_shape(p)
            &&& next.same_shape(p)
            &&& crate::threading::remaining(next.functions, done.push(id))
                < crate::threading::remaining(p.functions, done)
        }),
{
    let q = visited(p, id);
    let callers = if climbs(p, id) {
        crate::threading::callers_of(q, id)
    } else {
        Seq::empty()
    };
    lemma_visited(p, id);
    crate::threading::lemma_callers_exist(q, id);
    q.lemma_placed_in(callers, id, q.arity(id));
    let next = q.placed_in(callers, id, q.arity(id));
    assert(next.same_shape(p)) by {
        assert forall|i: int| 0 <= i < next.functions.len() implies (
        #[trigger] next.functions[i]).0 == p.functions[i].0 && next.functions[i].1 == (Func {
            body: next.functions[i].1.body,
            ..p.functions[i].1
        }) by {
            assert(next.functions[i].0 == q.functions[i].0);
        }
    }
    crate::threading::lemma_progress(p, next, done, id);
}

/// Visiting a function leaves the shape of the program as it is.
proof fn lemma_visited(p: Prog, id: FunctionID)
    requires
        p.has(id),
    ensures
        visited(p, id).same_shape(p),
{
    if !loop_threaded(p, id) {
        match crate::threading::precond_of(p, id) {
            Some(prop) => {
                let q = p.with_proof_param(id, "hpre"@, prop).with_entry_impl(p.func(id).name);
                assert(q.functions == p.functions);
                q.lemma_with_body(
                    id,
                    crate::threading::extra_args(
                        q.func(id).body,
                        id,
                        q.arity(id),
                        crate::threading::placeholder(),
                    ),
                );
            },
            None => {},
        }
    }
}

/// Visits one function and returns the callers to go on to.
fn visit(program: &mut Program, id: FunctionID) -> (callers: Vec<FunctionID>)
    requires
        old(program)@.has(id),
    ensures
        callers@ == if climbs(old(program)@, id) {
            crate::threading::callers_of(visited(old(program)@, id), id)
        } else {
            Seq::empty()
        },
        final(program)@ == visited(old(program)@, id).placed_in(
            callers@,
            id,
            visited(old(program)@, id).arity(id),
        ),
        final(program)@.same_shape(old(program)@),
        forall|k: int| 0 <= k < callers@.len() ==> final(program)@.has(#[trigger] callers@[k]),
{
    let ghost start = program@;
    let is_spec = is_spec_function(program, id);
    let mut climb = !is_spec;
    let threaded = program.has_hyp(id) || contains_name(
        &program.lean_termination_decls.loop_hyp,
        &program.function(id).name,
    );
    if !threaded && !is_spec {
        match precond_prop(program, id) {
            Some(prop) => {
                let name = program.function(id).name.clone();
                program.add_proof_param(id, "hpre".to_owned(), prop);
                program.add_entry_impl(&name);
                assert(program@.functions == start.functions);
                let arity: usize = program.function(id).signature.parameters.len();
                place(program, id, id, arity);
                assert(program@ == with_precond(start, id, prop@));
            },
            None => {
                climb = false;
            },
        }
    }
    assert(program@ == visited(start, id));
    assert(climb == climbs(start, id));
    proof {
        lemma_visited(start, id);
        program@.lemma_same_shape(start);
    }
    let callers: Vec<FunctionID> = if climb {
        find_callers(program, id)
    } else {
        Vec::new()
    };
    let ghost mid = program@;
    let arity: usize = program.function(id).signature.parameters.len();
    place_in(program, &callers, id, arity);
    proof {
        program@.lemma_same_shape(mid);
    }
    callers
}

/// Propagates a precondition from the functions of a worklist to the callers of
/// each.
fn propagate(program: &mut Program, work: Vec<FunctionID>)
    requires
        forall|k: int| 0 <= k < work@.len() ==> old(program)@.has(#[trigger] work@[k]),
    ensures
        final(program)@ == propagated(old(program)@, work@, Seq::empty()),
        final(program)@.same_shape(old(program)@),
{
    let ghost start = program@;
    let ghost goal = propagated(program@, work@, Seq::empty());
    let mut work = work;
    let mut done: Vec<FunctionID> = Vec::new();
    assert(done@ =~= Seq::empty());
    loop
        invariant
            propagated(program@, work@, done@) == goal,
            forall|k: int| 0 <= k < work@.len() ==> program@.has(#[trigger] work@[k]),
            program@.same_shape(start),
        ensures
            program@ == goal,
            program@.same_shape(start),
        decreases crate::threading::remaining(program@.functions, done@), work.len(),
    {
        let ghost before = program@;
        let ghost list = work@;
        match work.pop() {
            None => {
                break;
            },
            Some(id) => {
                assert(list[list.len() - 1] == id);
                assert(program@.has(id));
                assert(forall|k: int| 0 <= k < work@.len() ==> work@[k] == #[trigger] list[k]);
                assert(forall|k: int| 0 <= k < work@.len() ==> program@.has(#[trigger] work@[k]));
                if !contains_id(&done, id) {
                    let ghost rest = work@;
                    let mut callers = visit(program, id);
                    proof {
                        lemma_visit_progress(before, done@, id);
                        program@.lemma_same_shape(before);
                    }
                    let ghost found = callers@;
                    done.push(id);
                    work.append(&mut callers);
                    assert(work@ =~= rest + found);
                    assert forall|k: int| 0 <= k < work@.len() implies program@.has(
                        #[trigger] work@[k],
                    ) by {
                        if k < rest.len() {
                            assert(work@[k] == rest[k]);
                        } else {
                            assert(work@[k] == found[k - rest.len()]);
                        }
                    }
                }
            },
        }
    }
}

/// The helper and, where the module has one, its aborts companion.
pub open spec fn helpers_of(target: FunctionID, companion: Option<FunctionID>) -> Seq<FunctionID> {
    match companion {
        Some(a) => seq![target, a],
        None => seq![target],
    }
}

/// The program with one helper threaded.
pub open spec fn target_threaded(p: Prog, target: FunctionID) -> Prog {
    let f = p.func(target);
    let base = base_of(f.name);
    let hook = f.name + ".loop_hyp"@;
    let arity = p.arity(target);
    let p1 = p.with_hyp(target, hook).with_invariant(base, target).placed(target, target, arity);
    let companion = crate::threading::named(p1, f.module_id, f.name + ".aborts"@);
    let helpers = helpers_of(target, companion);
    let inner = helper_callers(p1, helpers, f.module_id, base, true);
    let outer = helper_callers(p1, helpers, f.module_id, base, false);
    let p2 = p1.placed_in(inner, target, arity);
    if outer.len() == 0 {
        p2
    } else {
        let p3 = match companion {
            Some(a) => p2.with_hyp(a, hook).placed(a, target, arity).placed(a, a, p2.arity(a)),
            None => p2,
        };
        propagated(placed_all(p3, outer, helpers), outer, Seq::empty())
    }
}

/// Threads one helper.
#[verifier::rlimit(60)]
fn thread_target(program: &mut Program, target: FunctionID)
    requires
        old(program)@.has(target),
    ensures
        final(program)@ == target_threaded(old(program)@, target),
        final(program)@.same_shape(old(program)@),
{
    let ghost start = program@;
    let name = program.function(target).name.clone();
    let module: ModuleID = program.function(target).module_id;
    let base = base_name(&name);
    let hook = append(name.as_str(), ".loop_hyp");
    let arity: usize = program.function(target).signature.parameters.len();
    program.add_hyp(target, hook.clone());
    program.add_invariant(base.clone(), target);
    assert(program@.functions == start.functions);
    place(program, target, target, arity);
    let ghost p1 = program@;
    proof {
        p1.lemma_same_shape(start);
    }
    let companion = find_named(program, module, &append(name.as_str(), ".aborts"));
    let mut helpers: Vec<FunctionID> = Vec::new();
    helpers.push(target);
    if let Some(a) = companion {
        helpers.push(a);
    }
    assert(helpers@ =~= helpers_of(target, companion));
    let inner = find_helper_callers(program, &helpers, module, &base, true);
    let outer = find_helper_callers(program, &helpers, module, &base, false);
    place_in(program, &inner, target, arity);
    let ghost p2 = program@;
    proof {
        p2.lemma_same_shape(p1);
    }
    if outer.len() == 0 {
        return;
    }
    if let Some(a) = companion {
        let companion_arity: usize = program.function(a).signature.parameters.len();
        program.add_hyp(a, hook);
        assert(program@.functions == p2.functions);
        let ghost p25 = program@;
        place(program, a, target, arity);
        proof {
            program@.lemma_same_shape(p25);
        }
        place(program, a, a, companion_arity);
    }
    let ghost p3 = program@;
    proof {
        assert(p3.same_shape(p2));
        p3.lemma_same_shape(p2);
        assert forall|k: int| 0 <= k < helpers@.len() implies p3.has(#[trigger] helpers@[k]) by {
            assert(p1.has(helpers@[k]));
        }
    }
    place_all(program, &outer, &helpers);
    proof {
        program@.lemma_same_shape(p3);
    }
    propagate(program, outer);
}

/// The program with each of some helpers threaded in turn.
pub open spec fn targets_threaded(p: Prog, targets: Seq<FunctionID>) -> Prog
    decreases targets.len(),
{
    if targets.len() == 0 {
        p
    } else {
        target_threaded(targets_threaded(p, targets.drop_last()), targets.last())
    }
}

/// The program with the declared loop invariants threaded.
pub open spec fn terminations_threaded(p: Prog) -> Prog {
    if p.decls.loop_hyp.len() == 0 {
        p
    } else {
        targets_threaded(p, crate::threading::selected(p.functions, is_target(p)))
    }
}

/// Threads the declared loop invariants through the program.
pub fn thread_lean_terminations(program: &mut Program)
    ensures
        final(program)@ == terminations_threaded(old(program)@),
        final(program)@.same_shape(old(program)@),
{
    if program.lean_termination_decls.loop_hyp.len() == 0 {
        assert(program@.decls.loop_hyp.len() == 0);
        return;
    }
    assert(program@.decls.loop_hyp.len() > 0);
    let ghost start = program@;
    let targets = {
        let t = Targets { program: &*program };
        assert((|k: FunctionID, f: Func| t.picks(k, f)) =~= is_target(program@));
        select(program, &t)
    };
    let mut i: usize = 0;
    assert(targets@.subrange(0, 0) =~= Seq::empty());
    while i < targets.len()
        invariant
            i <= targets.len(),
            forall|k: int| 0 <= k < targets@.len() ==> start.has(#[trigger] targets@[k]),
            program@ == targets_threaded(start, targets@.subrange(0, i as int)),
            program@.same_shape(start),
        decreases targets.len() - i,
    {
        let ghost before = program@;
        proof {
            program@.lemma_same_shape(start);
            let next = targets@.subrange(0, i + 1);
            assert(next.drop_last() =~= targets@.subrange(0, i as int));
            assert(next.last() == targets@[i as int]);
        }
        thread_target(program, targets[i]);
        i += 1;
    }
    assert(targets@.subrange(0, i as int) =~= targets@);
}

/// A program whose termination files declare no loop hypothesis stays as it is.
pub proof fn law_no_declaration_no_change(p: Prog)
    requires
        p.decls.loop_hyp.len() == 0,
    ensures
        terminations_threaded(p) == p,
{
}

} // verus!
