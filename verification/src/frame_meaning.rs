//! What frame proofs show: which dynamic fields a function may change, and that the
//! others are after a call what they were before.

use crate::frame_lemmas::{DfPreserveOp, Finding, Frame, FrameSet, Round, Search, Step, Way, Went};
use crate::ir::Node;
use crate::meaning::{Env, Model, Val};
use crate::program::{Prog, WorldFunctions};
use crate::substitution::Subst;
use crate::types::{FunctionID, Name, Ty};
use vstd::prelude::*;

verus! {

/// Where a dynamic field is: the types of its key and its value, its owner and its key.
#[verifier::ext_equal]
pub struct Place {
    pub key_ty: Ty,
    pub val_ty: Ty,
    pub owner: Val,
    pub key: Val,
}

/// What a world holds at a place.
pub type Fields = spec_fn(Val, Place) -> Val;

/// Whether a call of a function, with its types and its arguments but the world, may
/// change a place.
pub type Touched = spec_fn(FunctionID, Seq<Ty>, Seq<Val>, Place) -> bool;

/// The world in a result: the second of a pair, or the result itself.
pub open spec fn world_in(v: Val, snd: bool) -> Val {
    if snd {
        crate::meaning::rest(v)
    } else {
        v
    }
}

/// Whether a step of a proof is for a call: the one that sets a field for a call that
/// does, with its types, its owner and its key; the one that erases a field likewise;
/// that of an operation that leaves the fields alone for this operation; and that of a
/// function for a call of the function with its arguments.
pub open spec fn is_step_for_call(
    step: Frame,
    n: Node,
    env: Env,
    base: Env,
    p: Prog,
    w: WorldFunctions,
    m: Model,
    snd: bool,
) -> bool {
    match n {
        Node::Call { function, type_args, args } => match step {
            Frame::SetDf { key_ty, val_ty, uid, key } => {
                &&& function == w.set_df
                &&& !snd
                &&& names_field(key_ty, val_ty, uid, key, type_args, args, env, base, m)
            },
            Frame::EraseDf { key_ty, val_ty, uid, key } => {
                &&& function == w.erase_df
                &&& !snd
                &&& names_field(key_ty, val_ty, uid, key, type_args, args, env, base, m)
            },
            Frame::DfPreserve { op, obj_ty } => {
                &&& !snd
                &&& type_args.len() > 0
                &&& obj_ty == type_args[0]
                &&& match op {
                    DfPreserveOp::PutOwned => function == w.put_owned,
                    DfPreserveOp::PutShared => function == w.put_shared,
                    DfPreserveOp::PutFrozen => function == w.put_frozen,
                    DfPreserveOp::EmitEvent => function == w.emit_event,
                }
            },
            Frame::Callee { function: f, type_args: ts, args: es } => {
                &&& f == function
                &&& ts == type_args
                &&& crate::frame_lemmas::threads_world(p, w, f)
                &&& args.len() > 0
                &&& args.len() == p.func(f).signature.parameters.len()
                &&& crate::meaning::eval_all(es, base, m) == crate::meaning::eval_all(
                    args.drop_last(),
                    env,
                    m,
                )
            },
            _ => false,
        },
        _ => false,
    }
}

/// Whether a step names the field that a call works on.
pub open spec fn names_field(
    key_ty: Ty,
    val_ty: Ty,
    uid: Node,
    key: Node,
    types: Seq<Ty>,
    args: Seq<Node>,
    env: Env,
    base: Env,
    m: Model,
) -> bool {
    &&& types.len() == 2
    &&& key_ty == types[0]
    &&& val_ty == types[1]
    &&& args.len() >= 3
    &&& crate::meaning::eval(uid, base, m) == crate::meaning::eval(args[1], env, m)
    &&& crate::meaning::eval(key, base, m) == crate::meaning::eval(args[2], env, m)
}

/// Whether an expression sets or erases a field somewhere.
pub open spec fn works_on_fields(n: Node, w: WorldFunctions) -> bool {
    n.any(
        |k: Node|
            match k {
                Node::Call { function, .. } => function == w.set_df || function == w.erase_df,
                _ => false,
            },
    )
}

/// The steps of a proof, in their order.
pub open spec fn steps(f: Frame) -> Seq<Frame>
    decreases f,
{
    match f {
        Frame::Refl => Seq::empty(),
        Frame::Comp(a, b) => steps(*a) + steps(*b),
        _ => seq![f],
    }
}

/// Whether steps are those that lead from the world at the beginning of an expression to
/// the world in its value.
///
/// A binding of the world has a step, and no other binding works on fields. A branch has
/// a step with the steps of both sides. An end that holds the world has none, and one
/// that is a call has that of the call.
pub open spec fn walks(
    list: Seq<Frame>,
    n: Node,
    env: Env,
    base: Env,
    p: Prog,
    w: WorldFunctions,
    m: Model,
    snd: bool,
) -> bool
    decreases n, 1nat,
{
    match n {
        Node::Let { pattern, value, body } => {
            let inner = crate::meaning::bound(env, pattern, crate::meaning::eval(*value, env, m));
            if pattern.contains(crate::frame_lemmas::world_var()) {
                &&& list.len() > 0
                &&& is_step_for(list[0], *value, env, base, p, w, m, pattern.len() > 1)
                &&& walks(list.drop_first(), *body, inner, base, p, w, m, snd)
            } else {
                !works_on_fields(*value, w) && walks(list, *body, inner, base, p, w, m, snd)
            }
        },
        Node::If { then_branch, else_branch, .. } => list.len() == 1 && match list[0] {
            Frame::ItePair(a, b) => snd && walks(
                steps(*a),
                *then_branch,
                env,
                base,
                p,
                w,
                m,
                snd,
            ) && walks(steps(*b), *else_branch, env, base, p, w, m, snd),
            Frame::BiteWorld(a, b) => !snd && walks(
                steps(*a),
                *then_branch,
                env,
                base,
                p,
                w,
                m,
                snd,
            ) && walks(steps(*b), *else_branch, env, base, p, w, m, snd),
            _ => false,
        },
        Node::Tuple(es) => list.len() == 0 && snd && es.len() > 0 && es.last() == Node::Var(
            crate::frame_lemmas::world_var(),
        ),
        Node::Var(x) => list.len() == 0 && !snd && x == crate::frame_lemmas::world_var(),
        Node::Call { .. } => list.len() == 1 && is_step_for(list[0], n, env, base, p, w, m, snd),
        _ => false,
    }
}

/// Whether a step is for what the world is bound to: a call, or a branch.
pub open spec fn is_step_for(
    step: Frame,
    n: Node,
    env: Env,
    base: Env,
    p: Prog,
    w: WorldFunctions,
    m: Model,
    snd: bool,
) -> bool
    decreases n, 0nat,
{
    match n {
        Node::If { then_branch, else_branch, .. } => match step {
            Frame::ItePair(a, b) => snd && walks(
                steps(*a),
                *then_branch,
                env,
                base,
                p,
                w,
                m,
                true,
            ) && walks(steps(*b), *else_branch, env, base, p, w, m, true),
            _ => false,
        },
        _ => is_step_for_call(step, n, env, base, p, w, m, snd),
    }
}

/// Whether a place is in the footprint of a proof: it is that of a field that the proof
/// names, or one that a callee may change.
pub open spec fn covers(f: Frame, place: Place, base: Env, m: Model, touched: Touched) -> bool
    decreases f,
{
    match f {
        Frame::Refl => false,
        Frame::SetDf { key_ty, val_ty, uid, key } => place == (Place {
            key_ty,
            val_ty,
            owner: crate::meaning::eval(uid, base, m),
            key: crate::meaning::eval(key, base, m),
        }),
        Frame::EraseDf { key_ty, val_ty, uid, key } => place == (Place {
            key_ty,
            val_ty,
            owner: crate::meaning::eval(uid, base, m),
            key: crate::meaning::eval(key, base, m),
        }),
        Frame::DfPreserve { .. } => false,
        Frame::Callee { function, type_args, args } => touched(
            function,
            type_args,
            crate::meaning::eval_all(args, base, m),
            place,
        ),
        Frame::Comp(a, b) => covers(*a, place, base, m, touched) || covers(
            *b,
            place,
            base,
            m,
            touched,
        ),
        Frame::ItePair(a, b) => covers(*a, place, base, m, touched) || covers(
            *b,
            place,
            base,
            m,
            touched,
        ),
        Frame::BiteWorld(a, b) => covers(*a, place, base, m, touched) || covers(
            *b,
            place,
            base,
            m,
            touched,
        ),
    }
}

/// A proof covers what its steps cover.
proof fn lemma_steps_cover(f: Frame, place: Place, base: Env, m: Model, touched: Touched)
    ensures
        covers(f, place, base, m, touched) <==> exists|i: int|
            0 <= i < steps(f).len() && covers(#[trigger] steps(f)[i], place, base, m, touched),
    decreases f,
{
    match f {
        Frame::Comp(a, b) => {
            lemma_steps_cover(*a, place, base, m, touched);
            lemma_steps_cover(*b, place, base, m, touched);
            let (x, y) = (steps(*a), steps(*b));
            if covers(*a, place, base, m, touched) {
                let i = choose|i: int|
                    0 <= i < x.len() && covers(#[trigger] x[i], place, base, m, touched);
                assert(steps(f)[i] == x[i]);
            }
            if covers(*b, place, base, m, touched) {
                let i = choose|i: int|
                    0 <= i < y.len() && covers(#[trigger] y[i], place, base, m, touched);
                assert(steps(f)[x.len() + i] == y[i]);
            }
            if exists|i: int|
                0 <= i < steps(f).len() && covers(#[trigger] steps(f)[i], place, base, m, touched) {
                let i = choose|i: int|
                    0 <= i < steps(f).len() && covers(
                        #[trigger] steps(f)[i],
                        place,
                        base,
                        m,
                        touched,
                    );
                if i < x.len() {
                    assert(steps(f)[i] == x[i]);
                } else {
                    assert(steps(f)[i] == y[i - x.len()]);
                }
            }
        },
        Frame::Refl => {},
        _ => {
            assert(steps(f)[0] == f);
        },
    }
}

/// Whether a call hands on the world as it should: an operation on the world takes it
/// first, and a function that threads it takes it last and holds it in its result where
/// it is looked for.
pub open spec fn hands_world_on(n: Node, p: Prog, w: WorldFunctions, snd: bool) -> bool {
    match n {
        Node::Call { function, args, .. } => {
            let world = Node::Var(crate::frame_lemmas::world_var());
            &&& function == w.set_df || function == w.erase_df || function == w.put_owned
                || function == w.put_shared || function == w.put_frozen || function
                == w.emit_event ==> args.len() > 0 && args[0] == world
            &&& crate::frame_lemmas::threads_world(p, w, function) && args.len() > 0 ==> args.last()
                == world && crate::frame_lemmas::world_place(
                p.func(function).signature.return_type,
                crate::frame_lemmas::world_ty(w),
            ) == Some(snd)
        },
        _ => true,
    }
}

/// Whether an expression threads the world: it is bound alone or as the second of a pair,
/// every call hands it on, and a tuple that holds it is a pair.
pub open spec fn is_threaded(n: Node, p: Prog, w: WorldFunctions, snd: bool) -> bool
    decreases n,
{
    match n {
        Node::Let { pattern, value, body } => {
            &&& pattern.contains(crate::frame_lemmas::world_var()) ==> {
                &&& pattern.len() <= 2
                &&& pattern.last() == crate::frame_lemmas::world_var()
                &&& hands_world_on(*value, p, w, pattern.len() > 1)
                &&& match *value {
                    Node::If { then_branch, else_branch, .. } => is_threaded(
                        *then_branch,
                        p,
                        w,
                        true,
                    ) && is_threaded(*else_branch, p, w, true),
                    _ => true,
                }
            }
            &&& is_threaded(*body, p, w, snd)
        },
        Node::If { then_branch, else_branch, .. } => is_threaded(*then_branch, p, w, snd)
            && is_threaded(*else_branch, p, w, snd),
        Node::Tuple(es) => es.len() == 2,
        Node::Call { .. } => hands_world_on(n, p, w, snd),
        _ => true,
    }
}

/// Whether a model has the operations on the world change what they should: setting or
/// erasing a field changes no other one, the other operations change none, and a function
/// that threads the world changes what it may.
pub open spec fn changes_as_told(
    p: Prog,
    w: WorldFunctions,
    m: Model,
    fields: Fields,
    touched: Touched,
) -> bool {
    &&& forall|ts: Seq<Ty>, vs: Seq<Val>, place: Place|
        ts.len() == 2 && vs.len() >= 3 && place != (Place {
            key_ty: ts[0],
            val_ty: ts[1],
            owner: vs[1],
            key: vs[2],
        }) ==> #[trigger] fields((m.call)(w.set_df, ts, vs), place) == fields(vs[0], place)
    &&& forall|ts: Seq<Ty>, vs: Seq<Val>, place: Place|
        ts.len() == 2 && vs.len() >= 3 && place != (Place {
            key_ty: ts[0],
            val_ty: ts[1],
            owner: vs[1],
            key: vs[2],
        }) ==> #[trigger] fields((m.call)(w.erase_df, ts, vs), place) == fields(vs[0], place)
    &&& forall|f: FunctionID, ts: Seq<Ty>, vs: Seq<Val>, place: Place|
        vs.len() > 0 && (f == w.put_owned || f == w.put_shared || f == w.put_frozen || f
            == w.emit_event) ==> #[trigger] fields((m.call)(f, ts, vs), place) == fields(
            vs[0],
            place,
        )
    &&& forall|f: FunctionID, ts: Seq<Ty>, vs: Seq<Val>, place: Place| #[trigger]
        keeps(f, ts, vs, place, p, w, m, fields, touched)
}

/// Whether a call of a function that threads the world leaves a place as it was, unless it
/// may change it.
pub open spec fn keeps(
    f: FunctionID,
    ts: Seq<Ty>,
    vs: Seq<Val>,
    place: Place,
    p: Prog,
    w: WorldFunctions,
    m: Model,
    fields: Fields,
    touched: Touched,
) -> bool {
    crate::frame_lemmas::threads_world(p, w, f) && vs.len() > 0 && vs.len() == p.func(
        f,
    ).signature.parameters.len() && !touched(f, ts, vs.drop_last(), place)
        ==> match crate::frame_lemmas::world_place(
        p.func(f).signature.return_type,
        crate::frame_lemmas::world_ty(w),
    ) {
        Some(snd) => fields(world_in((m.call)(f, ts, vs), snd), place) == fields(vs.last(), place),
        None => true,
    }
}

/// Whether no step covers a place.
pub open spec fn none_cover(
    list: Seq<Frame>,
    place: Place,
    base: Env,
    m: Model,
    touched: Touched,
) -> bool {
    forall|i: int| 0 <= i < list.len() ==> !covers(#[trigger] list[i], place, base, m, touched)
}

/// The world is no variable that is thrown away.
proof fn lemma_world_var()
    ensures
        crate::frame_lemmas::world_var() != "_"@,
{
    reveal_strlit("__world");
    reveal_strlit("_");
    assert("__world"@.len() != "_"@.len());
}

/// A call leaves the places that its step does not cover.
proof fn lemma_call_leaves(
    step: Frame,
    n: Node,
    env: Env,
    base: Env,
    p: Prog,
    w: WorldFunctions,
    m: Model,
    snd: bool,
    fields: Fields,
    touched: Touched,
    place: Place,
)
    requires
        is_step_for_call(step, n, env, base, p, w, m, snd),
        hands_world_on(n, p, w, snd),
        changes_as_told(p, w, m, fields, touched),
        !covers(step, place, base, m, touched),
    ensures
        fields(world_in(crate::meaning::eval(n, env, m), snd), place) == fields(
            env(crate::frame_lemmas::world_var()),
            place,
        ),
{
    lemma_world_var();
    if let Node::Call { function, type_args, args } = n {
        let vs = crate::meaning::values(n, env, m);
        let world = Node::Var(crate::frame_lemmas::world_var());
        assert(n.kids() == args);
        assert(crate::meaning::eval(world, env, m) == env(crate::frame_lemmas::world_var()));
        match step {
            Frame::SetDf { .. } => {
                assert(vs[0] == crate::meaning::eval(args[0], env, m));
                assert(vs[1] == crate::meaning::eval(args[1], env, m));
                assert(vs[2] == crate::meaning::eval(args[2], env, m));
            },
            Frame::EraseDf { .. } => {
                assert(vs[0] == crate::meaning::eval(args[0], env, m));
                assert(vs[1] == crate::meaning::eval(args[1], env, m));
                assert(vs[2] == crate::meaning::eval(args[2], env, m));
            },
            Frame::DfPreserve { .. } => {
                assert(vs[0] == crate::meaning::eval(args[0], env, m));
            },
            Frame::Callee { .. } => {
                let given = crate::meaning::eval_all(args.drop_last(), env, m);
                assert(vs.drop_last() =~= given);
                assert(vs.last() == crate::meaning::eval(args.last(), env, m));
                assert(keeps(function, type_args, vs, place, p, w, m, fields, touched));
            },
            _ => {},
        }
    }
}

/// A proof whose steps lead to the world in the value of an expression covers all that
/// changes on the way: what it does not cover is there what it was in the beginning.
pub proof fn law_steps_cover_all_that_changes(
    list: Seq<Frame>,
    n: Node,
    env: Env,
    base: Env,
    p: Prog,
    w: WorldFunctions,
    m: Model,
    snd: bool,
    fields: Fields,
    touched: Touched,
    place: Place,
)
    requires
        walks(list, n, env, base, p, w, m, snd),
        is_threaded(n, p, w, snd),
        changes_as_told(p, w, m, fields, touched),
        none_cover(list, place, base, m, touched),
    ensures
        fields(world_in(crate::meaning::eval(n, env, m), snd), place) == fields(
            env(crate::frame_lemmas::world_var()),
            place,
        ),
    decreases n, 1nat,
{
    lemma_world_var();
    let x = crate::frame_lemmas::world_var();
    match n {
        Node::Let { pattern, value, body } => {
            let v = crate::meaning::eval(*value, env, m);
            let inner = crate::meaning::bound(env, pattern, v);
            if pattern.contains(x) {
                lemma_bound_leaves(
                    list[0],
                    *value,
                    env,
                    base,
                    p,
                    w,
                    m,
                    pattern.len() > 1,
                    fields,
                    touched,
                    place,
                );
                assert(inner(x) == world_in(v, pattern.len() > 1)) by {
                    if pattern.len() == 2 {
                        assert(pattern[1] == x);
                        assert(crate::meaning::behind(v, 0) == v);
                        assert(crate::meaning::behind(v, 1) == crate::meaning::rest(v));
                    }
                }
                let rest = list.drop_first();
                assert forall|i: int| 0 <= i < rest.len() implies !covers(
                    #[trigger] rest[i],
                    place,
                    base,
                    m,
                    touched,
                ) by {
                    assert(rest[i] == list[i + 1]);
                }
                law_steps_cover_all_that_changes(
                    rest,
                    *body,
                    inner,
                    base,
                    p,
                    w,
                    m,
                    snd,
                    fields,
                    touched,
                    place,
                );
            } else {
                crate::meaning::lemma_bound(env, env, pattern, v, x);
                law_steps_cover_all_that_changes(
                    list,
                    *body,
                    inner,
                    base,
                    p,
                    w,
                    m,
                    snd,
                    fields,
                    touched,
                    place,
                );
            }
        },
        Node::If { cond, then_branch, else_branch } => {
            assert(!covers(list[0], place, base, m, touched));
            match list[0] {
                Frame::ItePair(a, b) | Frame::BiteWorld(a, b) => {
                    if crate::meaning::truth(crate::meaning::eval(*cond, env, m)) {
                        lemma_steps_cover(*a, place, base, m, touched);
                        law_steps_cover_all_that_changes(
                            steps(*a),
                            *then_branch,
                            env,
                            base,
                            p,
                            w,
                            m,
                            snd,
                            fields,
                            touched,
                            place,
                        );
                    } else {
                        lemma_steps_cover(*b, place, base, m, touched);
                        law_steps_cover_all_that_changes(
                            steps(*b),
                            *else_branch,
                            env,
                            base,
                            p,
                            w,
                            m,
                            snd,
                            fields,
                            touched,
                            place,
                        );
                    }
                },
                _ => {},
            }
        },
        Node::Tuple(es) => {
            let vs = crate::meaning::values(n, env, m);
            assert(n.kids() == es);
            assert(vs[1] == crate::meaning::eval(es[1], env, m));
            assert(crate::meaning::eval(es[1], env, m) == env(x));
        },
        Node::Var(y) => {},
        Node::Call { .. } => {
            assert(!covers(list[0], place, base, m, touched));
            lemma_bound_leaves(list[0], n, env, base, p, w, m, snd, fields, touched, place);
        },
        _ => {},
    }
}

/// What the world is bound to leaves the places that its step does not cover.
proof fn lemma_bound_leaves(
    step: Frame,
    n: Node,
    env: Env,
    base: Env,
    p: Prog,
    w: WorldFunctions,
    m: Model,
    snd: bool,
    fields: Fields,
    touched: Touched,
    place: Place,
)
    requires
        is_step_for(step, n, env, base, p, w, m, snd),
        hands_world_on(n, p, w, snd),
        n matches Node::If { then_branch, else_branch, .. } ==> is_threaded(
            *then_branch,
            p,
            w,
            true,
        ) && is_threaded(*else_branch, p, w, true),
        changes_as_told(p, w, m, fields, touched),
        !covers(step, place, base, m, touched),
    ensures
        fields(world_in(crate::meaning::eval(n, env, m), snd), place) == fields(
            env(crate::frame_lemmas::world_var()),
            place,
        ),
    decreases n, 0nat,
{
    match n {
        Node::If { cond, then_branch, else_branch } => {
            if let Frame::ItePair(a, b) = step {
                if crate::meaning::truth(crate::meaning::eval(*cond, env, m)) {
                    lemma_steps_cover(*a, place, base, m, touched);
                    law_steps_cover_all_that_changes(
                        steps(*a),
                        *then_branch,
                        env,
                        base,
                        p,
                        w,
                        m,
                        true,
                        fields,
                        touched,
                        place,
                    );
                } else {
                    lemma_steps_cover(*b, place, base, m, touched);
                    law_steps_cover_all_that_changes(
                        steps(*b),
                        *else_branch,
                        env,
                        base,
                        p,
                        w,
                        m,
                        true,
                        fields,
                        touched,
                        place,
                    );
                }
            }
        },
        _ => {
            lemma_call_leaves(step, n, env, base, p, w, m, snd, fields, touched, place);
        },
    }
}

/// Whether an expression is written out without anything being captured.
pub open spec fn is_plain(e: Node, s: Subst) -> bool {
    !e.uses("_"@) && crate::written_meaning::clear_of(e, s)
}

/// Whether the arguments of a call are written out without anything being captured, as far
/// as they can be.
pub open spec fn args_are_plain(n: Node, s: Subst) -> bool {
    match n {
        Node::Call { args, .. } => forall|i: int|
            0 <= i < args.len() && crate::frame_lemmas::shown(#[trigger] args[i], s) is Some
                ==> is_plain(args[i], s),
        _ => true,
    }
}

/// What variables stand for behind a binding: the world for nothing that could be written
/// out, and the other names for the value, or their parts of it, if it is short enough.
pub open spec fn behind_binding(pattern: Seq<Name>, value: Node, s: Subst) -> Subst {
    let v = crate::obligations::short_value(value, s, false);
    if pattern.len() == 0 {
        s
    } else if pattern.len() == 1 {
        crate::assoc::put(
            s,
            pattern[0],
            if pattern[0] == crate::frame_lemmas::world_var() {
                None
            } else {
                v
            },
        )
    } else {
        crate::frame_lemmas::parts_bound(
            s,
            pattern,
            v,
            pattern.last() == crate::frame_lemmas::world_var(),
            pattern.len(),
        )
    }
}

/// Whether nothing is captured where the values, owners, keys and arguments on the way to
/// the world in the value of an expression are written out.
pub open spec fn stays_plain(n: Node, s: Subst) -> bool
    decreases n,
{
    match n {
        Node::Let { pattern, value, body } => {
            &&& crate::obligations::short_value(*value, s, false) is Some ==> is_plain(*value, s)
            &&& args_are_plain(*value, s)
            &&& match *value {
                Node::If { then_branch, else_branch, .. } => stays_plain(*then_branch, s)
                    && stays_plain(*else_branch, s),
                _ => true,
            }
            &&& stays_plain(*body, behind_binding(pattern, *value, s))
        },
        Node::If { then_branch, else_branch, .. } => stays_plain(*then_branch, s) && stays_plain(
            *else_branch,
            s,
        ),
        _ => args_are_plain(n, s),
    }
}

/// The names of a tuple take its parts, the later ones where a name stands twice.
proof fn lemma_parts_bound(
    s: Subst,
    pattern: Seq<Name>,
    value: Option<Node>,
    no_world: bool,
    v: Val,
    env: Env,
    k: nat,
    x: Name,
)
    requires
        k <= pattern.len(),
    ensures
        ({
            let t = crate::frame_lemmas::parts_bound(s, pattern, value, no_world, k);
            let out = crate::meaning::set_parts(env, pattern, v, k);
            ||| crate::assoc::found(t, x) == crate::assoc::found(s, x) && out(x) == env(x)
            ||| pattern.contains(x) && crate::assoc::found(t, x) == Some(None::<Node>)
            ||| pattern.contains(x) && value is Some && crate::assoc::found(t, x) == Some(
                Some(
                    Node::Let {
                        pattern,
                        value: Box::new(value->0),
                        body: Box::new(Node::Var(x)),
                    },
                ),
            )
        }),
    decreases k,
{
    if k > 0 {
        let y = pattern[k - 1];
        lemma_parts_bound(s, pattern, value, no_world, v, env, (k - 1) as nat, x);
        let part = match value {
            Some(e) => if no_world && y == crate::frame_lemmas::world_var() {
                None
            } else {
                Some(Node::Let { pattern, value: Box::new(e), body: Box::new(Node::Var(y)) })
            },
            None => None,
        };
        crate::written_meaning::lemma_found_put(
            crate::frame_lemmas::parts_bound(s, pattern, value, no_world, (k - 1) as nat),
            y,
            part,
            x,
        );
        assert(pattern.contains(y));
    }
}

/// Behind a binding the variables stand for the values that they then have.
proof fn lemma_behind_binding(
    pattern: Seq<Name>,
    value: Node,
    s: Subst,
    env: Env,
    base: Env,
    m: Model,
)
    requires
        crate::meaning::takes_fields(m),
        crate::written_meaning::stands_for(s, env, base, m),
        crate::obligations::short_value(value, s, false) is Some ==> is_plain(value, s),
    ensures
        crate::written_meaning::stands_for(
            behind_binding(pattern, value, s),
            crate::meaning::bound(env, pattern, crate::meaning::eval(value, env, m)),
            base,
            m,
        ),
{
    let t = behind_binding(pattern, value, s);
    let e = crate::obligations::short_value(value, s, false);
    let v = crate::meaning::eval(value, env, m);
    let out = crate::meaning::bound(env, pattern, v);
    if e is Some {
        crate::written_meaning::law_writing_out_keeps_values(value, s, env, base, m);
    }
    assert forall|x: Name|
        x != "_"@ ==> match #[trigger] crate::assoc::found(t, x) {
            Some(Some(c)) => out(x) == crate::meaning::eval(c, base, m),
            Some(None) => true,
            None => out(x) == base(x),
        } by {
        assert(x != "_"@ ==> match crate::assoc::found(s, x) {
            Some(Some(c)) => env(x) == crate::meaning::eval(c, base, m),
            Some(None) => true,
            None => env(x) == base(x),
        });
        if pattern.len() == 1 {
            let put = if pattern[0] == crate::frame_lemmas::world_var() {
                None
            } else {
                e
            };
            crate::written_meaning::lemma_found_put(s, pattern[0], put, x);
        } else if pattern.len() > 1 {
            let no_world = pattern.last() == crate::frame_lemmas::world_var();
            lemma_parts_bound(s, pattern, e, no_world, v, env, pattern.len(), x);
            if e is Some && x != "_"@ && pattern.contains(x) {
                crate::meaning::lemma_bound(env, base, pattern, v, x);
                let inner = Node::Var(x);
                let c = Node::Let {
                    pattern,
                    value: Box::new(e->0),
                    body: Box::new(inner),
                };
                assert(crate::meaning::eval(
                    inner,
                    crate::meaning::bound(base, pattern, v),
                    m,
                ) == crate::meaning::bound(base, pattern, v)(x));
                assert(crate::meaning::eval(c, base, m) == out(x));
            }
        }
    }
}

/// The steps of a proof that may be absent.
pub open spec fn steps_so_far(acc: Option<Frame>) -> Seq<Frame> {
    match acc {
        Some(f) => steps(f),
        None => Seq::empty(),
    }
}

/// One more step, behind those so far.
proof fn lemma_chained(acc: Option<Frame>, step: Frame)
    ensures
        steps(crate::frame_lemmas::chained(acc, step)) == steps_so_far(acc) + steps(step),
{
    assert(steps_so_far(acc) + steps(step) =~= match acc {
        Some(f) => steps(f) + steps(step),
        None => steps(step),
    });
}

/// Arguments that are shown have the values of the arguments.
proof fn lemma_all_shown(args: Seq<Node>, s: Subst, env: Env, base: Env, m: Model)
    requires
        crate::meaning::takes_fields(m),
        crate::written_meaning::stands_for(s, env, base, m),
        forall|i: int|
            0 <= i < args.len() && crate::frame_lemmas::shown(#[trigger] args[i], s) is Some
                ==> is_plain(args[i], s),
    ensures
        crate::frame_lemmas::all_shown(args, s) matches Some(es) ==> crate::meaning::eval_all(
            es,
            base,
            m,
        ) == crate::meaning::eval_all(args, env, m),
    decreases args.len(),
{
    if let Some(es) = crate::frame_lemmas::all_shown(args, s) {
        let x = crate::meaning::eval_all(es, base, m);
        let y = crate::meaning::eval_all(args, env, m);
        if args.len() > 0 {
            let front = args.drop_last();
            assert forall|i: int|
                0 <= i < front.len() && crate::frame_lemmas::shown(
                    #[trigger] front[i],
                    s,
                ) is Some implies is_plain(front[i], s) by {
                assert(front[i] == args[i]);
            }
            lemma_all_shown(front, s, env, base, m);
            let before = crate::frame_lemmas::all_shown(front, s)->0;
            let u = crate::meaning::eval_all(before, base, m);
            let v = crate::meaning::eval_all(front, env, m);
            assert(u == v);
            assert(u.len() == before.len() && v.len() == front.len());
            assert(args[args.len() - 1] == args.last());
            crate::written_meaning::law_writing_out_keeps_values(args.last(), s, env, base, m);
            assert forall|i: int| 0 <= i < x.len() implies x[i] == y[i] by {
                if i < front.len() {
                    assert(u[i] == v[i]);
                    assert(es[i] == before[i]);
                }
            }
        }
        assert(x =~= y);
    }
}

/// The step for setting or erasing a field names the field.
proof fn lemma_df_step(
    n: Node,
    s: Subst,
    env: Env,
    base: Env,
    c: Search,
    m: Model,
)
    requires
        crate::meaning::takes_fields(m),
        crate::written_meaning::stands_for(s, env, base, m),
        args_are_plain(n, s),
        n is Call,
        n->Call_function == c.world.set_df || n->Call_function == c.world.erase_df,
    ensures
        crate::frame_lemmas::df_step(
            c.world,
            n->Call_function,
            n->Call_type_args,
            n->Call_args,
            s,
        ) matches Step::Made(f) ==> is_step_for_call(f, n, env, base, c.p, c.world, m, false)
            && steps(f) == seq![f],
{
    let args = n->Call_args;
    if n->Call_type_args.len() == 2 && args.len() >= 3 {
        if crate::frame_lemmas::shown(args[1], s) is Some {
            crate::written_meaning::law_writing_out_keeps_values(args[1], s, env, base, m);
        }
        if crate::frame_lemmas::shown(args[2], s) is Some {
            crate::written_meaning::law_writing_out_keeps_values(args[2], s, env, base, m);
        }
    }
}

/// The step for a call of a function names the function and its arguments.
proof fn lemma_callee_step(
    n: Node,
    s: Subst,
    env: Env,
    base: Env,
    c: Search,
    m: Model,
    snd: bool,
)
    requires
        crate::meaning::takes_fields(m),
        crate::written_meaning::stands_for(s, env, base, m),
        args_are_plain(n, s),
        n is Call,
        crate::frame_lemmas::threads_world(c.p, c.world, n->Call_function),
    ensures
        crate::frame_lemmas::callee_step(
            c,
            n->Call_function,
            n->Call_type_args,
            n->Call_args,
            s,
        ) matches Step::Made(f) ==> is_step_for_call(f, n, env, base, c.p, c.world, m, snd)
            && steps(f) == seq![f],
{
    let args = n->Call_args;
    if args.len() > 0 {
        let front = args.drop_last();
        assert forall|i: int|
            0 <= i < front.len() && crate::frame_lemmas::shown(
                #[trigger] front[i],
                s,
            ) is Some implies is_plain(front[i], s) by {
            assert(front[i] == args[i]);
        }
        lemma_all_shown(front, s, env, base, m);
    }
}

/// The step for a call is for the call.
proof fn lemma_call_step(
    n: Node,
    s: Subst,
    env: Env,
    base: Env,
    c: Search,
    m: Model,
    snd: bool,
)
    requires
        crate::meaning::takes_fields(m),
        crate::written_meaning::stands_for(s, env, base, m),
        args_are_plain(n, s),
        n is Call,
    ensures
        ({
            let step = crate::frame_lemmas::bound_call(
                c,
                n->Call_function,
                n->Call_type_args,
                n->Call_args,
                s,
            );
            step matches Step::Made(f) ==> is_step_for_call(
                f,
                n,
                env,
                base,
                c.p,
                c.world,
                m,
                false,
            ) && steps(f) == seq![f]
        }),
        ({
            let step = crate::frame_lemmas::tail_call(
                c,
                n->Call_function,
                n->Call_type_args,
                n->Call_args,
                s,
                snd,
            );
            step matches Step::Made(f) ==> is_step_for_call(f, n, env, base, c.p, c.world, m, snd)
                && steps(f) == seq![f]
        }),
{
    let f = n->Call_function;
    if f == c.world.set_df || f == c.world.erase_df {
        lemma_df_step(n, s, env, base, c, m);
    }
    if crate::frame_lemmas::threads_world(c.p, c.world, f) {
        lemma_callee_step(n, s, env, base, c, m, false);
        lemma_callee_step(n, s, env, base, c, m, snd);
    }
}

/// What does not change the world does not work on fields.
proof fn lemma_works_on_fields(n: Node, c: Search)
    requires
        !crate::frame_lemmas::touches_world(c, n),
    ensures
        !works_on_fields(n, c.world),
    decreases n,
{
    n.lemma_kids_decrease();
    let t = |k: Node|
        match k {
            Node::Call { function, .. } => function == c.world.set_df || function
                == c.world.erase_df,
            _ => false,
        };
    let u = |m: Node|
        m matches Node::Call { function, .. } && crate::frame_lemmas::changes_world(c, function);
    if n.any(t) {
        if t(n) {
            assert(u(n));
        } else {
            let i = choose|i: int| 0 <= i < n.kids().len() && (#[trigger] n.kids()[i]).any(t);
            if crate::frame_lemmas::touches_world(c, n.kids()[i]) {
                assert(n.kids()[i].any(u));
                assert(n.any_kid(u));
            }
            lemma_works_on_fields(n.kids()[i], c);
        }
        assert(n.any(u));
    }
}

/// The walk behind a binding adds the step of the world's binding, and none for another
/// one. Gives what it adds.
proof fn lemma_let_walks(
    c: Search,
    pattern: Seq<Name>,
    value: Node,
    way: Way,
    env: Env,
    base: Env,
    m: Model,
) -> (added: Seq<Frame>)
    requires
        crate::meaning::takes_fields(m),
        crate::written_meaning::stands_for(way.subst, env, base, m),
        crate::obligations::short_value(value, way.subst, false) is Some ==> is_plain(
            value,
            way.subst,
        ),
        args_are_plain(value, way.subst),
        value matches Node::If { then_branch, else_branch, .. } ==> stays_plain(
            *then_branch,
            way.subst,
        ) && stays_plain(*else_branch, way.subst),
        pattern.contains(crate::frame_lemmas::world_var()) ==> pattern.last()
            == crate::frame_lemmas::world_var(),
        pattern.contains(crate::frame_lemmas::world_var()) ==> match value {
            Node::If { then_branch, else_branch, .. } => is_threaded(
                *then_branch,
                c.p,
                c.world,
                true,
            ) && is_threaded(*else_branch, c.p, c.world, true),
            _ => true,
        },
        crate::frame_lemmas::let_framed(c, pattern, value, way) is On,
    ensures
        crate::frame_lemmas::let_framed(c, pattern, value, way) matches Went::On(next) && {
            &&& next.subst == behind_binding(pattern, value, way.subst)
            &&& steps_so_far(next.acc) == steps_so_far(way.acc) + added
            &&& if pattern.contains(crate::frame_lemmas::world_var()) {
                added.len() == 1 && is_step_for(
                    added[0],
                    value,
                    env,
                    base,
                    c.p,
                    c.world,
                    m,
                    pattern.len() > 1,
                )
            } else {
                added.len() == 0 && !works_on_fields(value, c.world)
            }
        },
    decreases value, 0nat,
{
    let x = crate::frame_lemmas::world_var();
    let s = way.subst;
    let none: Seq<Frame> = Seq::empty();
    if pattern.len() == 1 && pattern[0] == x {
        assert(pattern.contains(pattern[0]));
        lemma_call_step(value, s, env, base, c, m, false);
        let step = crate::frame_lemmas::bound_call(
            c,
            value->Call_function,
            value->Call_type_args,
            value->Call_args,
            s,
        );
        lemma_chained(way.acc, step->Made_0);
        steps(step->Made_0)
    } else if pattern.len() > 1 && pattern.last() == x {
        assert(pattern.contains(pattern.last()));
        match value {
            Node::If { then_branch, else_branch, .. } => {
                let start = Way { subst: s, acc: None };
                let a = crate::frame_lemmas::tail_framed(c, *then_branch, start, true)->Made_0;
                let b = crate::frame_lemmas::tail_framed(c, *else_branch, start, true)->Made_0;
                let on = lemma_tail_walks(c, *then_branch, start, true, env, base, m);
                let off = lemma_tail_walks(c, *else_branch, start, true, env, base, m);
                assert(none + on =~= on && none + off =~= off);
                let f = Frame::ItePair(Box::new(a), Box::new(b));
                lemma_chained(way.acc, f);
                seq![f]
            },
            Node::Call { function, type_args, args } => {
                lemma_callee_step(value, s, env, base, c, m, true);
                let step = crate::frame_lemmas::callee_step(c, function, type_args, args, s);
                lemma_chained(way.acc, step->Made_0);
                steps(step->Made_0)
            },
            _ => none,
        }
    } else {
        if pattern.contains(x) {
            let i = choose|i: int| 0 <= i < pattern.len() && pattern[i] == x;
            assert(pattern[i] == x);
        }
        lemma_works_on_fields(value, c);
        assert(steps_so_far(way.acc) + none =~= steps_so_far(way.acc));
        none
    }
}

/// The proof of a walk has the steps so far, and behind them those that lead to the world
/// in the value of the expression. Gives the latter.
proof fn lemma_tail_walks(
    c: Search,
    n: Node,
    way: Way,
    snd: bool,
    env: Env,
    base: Env,
    m: Model,
) -> (rest: Seq<Frame>)
    requires
        crate::meaning::takes_fields(m),
        crate::written_meaning::stands_for(way.subst, env, base, m),
        stays_plain(n, way.subst),
        is_threaded(n, c.p, c.world, snd),
        crate::frame_lemmas::tail_framed(c, n, way, snd) is Made,
    ensures
        crate::frame_lemmas::tail_framed(c, n, way, snd) matches Step::Made(f) && steps(f)
            == steps_so_far(way.acc) + rest && walks(rest, n, env, base, c.p, c.world, m, snd),
    decreases n, 1nat,
{
    let none: Seq<Frame> = Seq::empty();
    match n {
        Node::Let { pattern, value, body } => {
            let added = lemma_let_walks(c, pattern, *value, way, env, base, m);
            let next = crate::frame_lemmas::let_framed(c, pattern, *value, way)->On_0;
            lemma_behind_binding(pattern, *value, way.subst, env, base, m);
            let inner = crate::meaning::bound(
                env,
                pattern,
                crate::meaning::eval(*value, env, m),
            );
            let behind = lemma_tail_walks(c, *body, next, snd, inner, base, m);
            let rest = added + behind;
            assert(steps_so_far(way.acc) + added + behind =~= steps_so_far(way.acc) + rest);
            if added.len() == 1 {
                assert(rest.drop_first() =~= behind);
                assert(rest[0] == added[0]);
            } else {
                assert(rest =~= behind);
            }
            rest
        },
        Node::If { then_branch, else_branch, .. } => {
            let start = Way { subst: way.subst, acc: None };
            let a = crate::frame_lemmas::tail_framed(c, *then_branch, start, snd)->Made_0;
            let b = crate::frame_lemmas::tail_framed(c, *else_branch, start, snd)->Made_0;
            let on = lemma_tail_walks(c, *then_branch, start, snd, env, base, m);
            let off = lemma_tail_walks(c, *else_branch, start, snd, env, base, m);
            assert(none + on =~= on && none + off =~= off);
            let f = if snd {
                Frame::ItePair(Box::new(a), Box::new(b))
            } else {
                Frame::BiteWorld(Box::new(a), Box::new(b))
            };
            lemma_chained(way.acc, f);
            seq![f]
        },
        Node::Call { function, type_args, args } => {
            lemma_call_step(n, way.subst, env, base, c, m, snd);
            let step = crate::frame_lemmas::tail_call(
                c,
                function,
                type_args,
                args,
                way.subst,
                snd,
            )->Made_0;
            lemma_chained(way.acc, step);
            assert(is_step_for(step, n, env, base, c.p, c.world, m, snd));
            seq![step]
        },
        _ => {
            assert(steps_so_far(way.acc) + none =~= steps_so_far(way.acc));
            none
        },
    }
}

/// A proof that names no field and no callee covers nothing.
proof fn lemma_touches_nothing(f: Frame, place: Place, base: Env, m: Model, touched: Touched)
    requires
        f.touches_nothing(),
    ensures
        !covers(f, place, base, m, touched),
    decreases f,
{
    match f {
        Frame::Comp(a, b) | Frame::ItePair(a, b) | Frame::BiteWorld(a, b) => {
            lemma_touches_nothing(*a, place, base, m, touched);
            lemma_touches_nothing(*b, place, base, m, touched);
        },
        _ => {},
    }
}

/// A record is sound. Its proof has the steps that lead through the body of the function to
/// the world that it returns: for each call that sets or erases a field one that does so
/// with the owner and the key of the call. Where the footprint does not cover a place, the
/// function leaves it as it was; and where the footprint is empty, it leaves every place.
pub proof fn law_a_record_covers_what_its_function_changes(
    c: Search,
    id: FunctionID,
    env: Env,
    m: Model,
    fields: Fields,
    touched: Touched,
    place: Place,
)
    requires
        crate::meaning::takes_fields(m),
        crate::frame_lemmas::framed(c, id) matches Finding::Made(set) && is_threaded(
            c.p.func(id).body,
            c.p,
            c.world,
            set.world_proj_snd,
        ),
        stays_plain(c.p.func(id).body, Seq::empty()),
        changes_as_told(c.p, c.world, m, fields, touched),
    ensures
        crate::frame_lemmas::framed(c, id) matches Finding::Made(set) && {
            let body = c.p.func(id).body;
            let world = crate::frame_lemmas::world_var();
            let out = world_in(crate::meaning::eval(body, env, m), set.world_proj_snd);
            &&& walks(steps(set.proof), body, env, env, c.p, c.world, m, set.world_proj_snd)
            &&& !covers(set.proof, place, env, m, touched) ==> fields(out, place) == fields(
                env(world),
                place,
            )
            &&& set.proof.touches_nothing() ==> fields(out, place) == fields(env(world), place)
        },
{
    let none: Subst = Seq::empty();
    let body = c.p.func(id).body;
    let way = Way { subst: none, acc: None };
    assert forall|x: Name| (#[trigger] crate::assoc::found(none, x)) is None by {}
    if let Finding::Made(set) = crate::frame_lemmas::framed(c, id) {
        let snd = set.world_proj_snd;
        let rest = lemma_tail_walks(c, body, way, snd, env, env, m);
        assert(steps_so_far(None::<Frame>) + rest =~= rest);
        if set.proof.touches_nothing() {
            lemma_touches_nothing(set.proof, place, env, m, touched);
        }
        if !covers(set.proof, place, env, m, touched) {
            lemma_steps_cover(set.proof, place, env, m, touched);
            law_steps_cover_all_that_changes(
                rest,
                body,
                env,
                env,
                c.p,
                c.world,
                m,
                snd,
                fields,
                touched,
                place,
            );
        }
    }
}

/// Whether a function is called on the way to the world in the value of an expression.
pub open spec fn called_on_the_way(n: Node, f: FunctionID) -> bool
    decreases n,
{
    match n {
        Node::Let { pattern, value, body } => {
            ||| pattern.contains(crate::frame_lemmas::world_var()) && match *value {
                Node::Call { function, .. } => function == f,
                Node::If { then_branch, else_branch, .. } => called_on_the_way(*then_branch, f)
                    || called_on_the_way(*else_branch, f),
                _ => false,
            }
            ||| called_on_the_way(*body, f)
        },
        Node::If { then_branch, else_branch, .. } => called_on_the_way(*then_branch, f)
            || called_on_the_way(*else_branch, f),
        Node::Call { function, .. } => function == f,
        _ => false,
    }
}

/// Whether a proof has a step that sets a field, or one that erases one, or one for a call
/// of a function.
pub open spec fn has_step(f: Frame, w: WorldFunctions, id: FunctionID) -> bool
    decreases f,
{
    match f {
        Frame::Refl => false,
        Frame::SetDf { .. } => id == w.set_df,
        Frame::EraseDf { .. } => id == w.erase_df,
        Frame::DfPreserve { .. } => false,
        Frame::Callee { function, .. } => id == function,
        Frame::Comp(a, b) => has_step(*a, w, id) || has_step(*b, w, id),
        Frame::ItePair(a, b) => has_step(*a, w, id) || has_step(*b, w, id),
        Frame::BiteWorld(a, b) => has_step(*a, w, id) || has_step(*b, w, id),
    }
}

/// A proof has the steps that its steps have.
proof fn lemma_has_step(f: Frame, w: WorldFunctions, id: FunctionID)
    requires
        exists|i: int| 0 <= i < steps(f).len() && has_step(#[trigger] steps(f)[i], w, id),
    ensures
        has_step(f, w, id),
        !f.touches_nothing(),
    decreases f,
{
    let i = choose|i: int| 0 <= i < steps(f).len() && has_step(#[trigger] steps(f)[i], w, id);
    match f {
        Frame::Comp(a, b) => {
            if i < steps(*a).len() {
                assert(steps(f)[i] == steps(*a)[i]);
                lemma_has_step(*a, w, id);
            } else {
                assert(steps(f)[i] == steps(*b)[i - steps(*a).len()]);
                lemma_has_step(*b, w, id);
            }
        },
        Frame::Refl => {},
        _ => {
            assert(steps(f)[0] == f);
            lemma_step_touches(f, w, id);
        },
    }
}

/// A proof that has such a step touches something.
proof fn lemma_step_touches(f: Frame, w: WorldFunctions, id: FunctionID)
    requires
        has_step(f, w, id),
    ensures
        !f.touches_nothing(),
    decreases f,
{
    match f {
        Frame::Comp(a, b) | Frame::ItePair(a, b) | Frame::BiteWorld(a, b) => {
            if has_step(*a, w, id) {
                lemma_step_touches(*a, w, id);
            } else {
                lemma_step_touches(*b, w, id);
            }
        },
        _ => {},
    }
}

/// A call on the way is among the steps.
proof fn lemma_call_is_among_steps(
    list: Seq<Frame>,
    n: Node,
    env: Env,
    base: Env,
    p: Prog,
    w: WorldFunctions,
    m: Model,
    snd: bool,
    f: FunctionID,
)
    requires
        walks(list, n, env, base, p, w, m, snd),
        called_on_the_way(n, f),
        f != w.put_owned && f != w.put_shared && f != w.put_frozen && f != w.emit_event,
    ensures
        exists|i: int| 0 <= i < list.len() && has_step(#[trigger] list[i], w, f),
    decreases n,
{
    match n {
        Node::Let { pattern, value, body } => {
            let inner = crate::meaning::bound(env, pattern, crate::meaning::eval(*value, env, m));
            if pattern.contains(crate::frame_lemmas::world_var()) {
                if called_on_the_way(*body, f) {
                    let rest = list.drop_first();
                    lemma_call_is_among_steps(rest, *body, inner, base, p, w, m, snd, f);
                    let i = choose|i: int|
                        0 <= i < rest.len() && has_step(#[trigger] rest[i], w, f);
                    assert(list[i + 1] == rest[i]);
                } else {
                    assert(is_step_for(list[0], *value, env, base, p, w, m, pattern.len() > 1));
                    match *value {
                        Node::If { then_branch, else_branch, .. } => {
                            if let Frame::ItePair(a, b) = list[0] {
                                if called_on_the_way(*then_branch, f) {
                                    lemma_call_is_among_steps(
                                        steps(*a),
                                        *then_branch,
                                        env,
                                        base,
                                        p,
                                        w,
                                        m,
                                        true,
                                        f,
                                    );
                                    lemma_has_step(*a, w, f);
                                } else {
                                    lemma_call_is_among_steps(
                                        steps(*b),
                                        *else_branch,
                                        env,
                                        base,
                                        p,
                                        w,
                                        m,
                                        true,
                                        f,
                                    );
                                    lemma_has_step(*b, w, f);
                                }
                            }
                        },
                        _ => {},
                    }
                    assert(has_step(list[0], w, f));
                }
            } else {
                lemma_call_is_among_steps(list, *body, inner, base, p, w, m, snd, f);
            }
        },
        Node::If { then_branch, else_branch, .. } => {
            match list[0] {
                Frame::ItePair(a, b) | Frame::BiteWorld(a, b) => {
                    if called_on_the_way(*then_branch, f) {
                        lemma_call_is_among_steps(
                            steps(*a),
                            *then_branch,
                            env,
                            base,
                            p,
                            w,
                            m,
                            snd,
                            f,
                        );
                        lemma_has_step(*a, w, f);
                    } else {
                        lemma_call_is_among_steps(
                            steps(*b),
                            *else_branch,
                            env,
                            base,
                            p,
                            w,
                            m,
                            snd,
                            f,
                        );
                        lemma_has_step(*b, w, f);
                    }
                },
                _ => {},
            }
            assert(has_step(list[0], w, f));
        },
        Node::Call { .. } => {
            assert(is_step_for(list[0], n, env, base, p, w, m, snd));
            assert(has_step(list[0], w, f));
        },
        _ => {},
    }
}

/// Every call on the way to the returned world is in the proof of a record: one that sets a
/// field as a step that sets one, one that erases a field as a step that erases one, and
/// one of a function as a step of the function. So a footprint is empty only where the way
/// to the returned world sets and erases no field, and calls no function that threads the
/// world.
pub proof fn law_every_call_on_the_way_is_a_step(
    c: Search,
    id: FunctionID,
    env: Env,
    m: Model,
    f: FunctionID,
)
    requires
        crate::meaning::takes_fields(m),
        crate::frame_lemmas::framed(c, id) matches Finding::Made(set) && is_threaded(
            c.p.func(id).body,
            c.p,
            c.world,
            set.world_proj_snd,
        ),
        stays_plain(c.p.func(id).body, Seq::empty()),
        called_on_the_way(c.p.func(id).body, f),
        f != c.world.put_owned && f != c.world.put_shared && f != c.world.put_frozen && f
            != c.world.emit_event,
    ensures
        crate::frame_lemmas::framed(c, id) matches Finding::Made(set) && has_step(
            set.proof,
            c.world,
            f,
        ) && !set.proof.touches_nothing(),
{
    let none: Subst = Seq::empty();
    let body = c.p.func(id).body;
    let way = Way { subst: none, acc: None };
    assert forall|x: Name| (#[trigger] crate::assoc::found(none, x)) is None by {}
    if let Finding::Made(set) = crate::frame_lemmas::framed(c, id) {
        let snd = set.world_proj_snd;
        let rest = lemma_tail_walks(c, body, way, snd, env, env, m);
        assert(steps_so_far(None::<Frame>) + rest =~= rest);
        lemma_call_is_among_steps(rest, body, env, env, c.p, c.world, m, snd, f);
        lemma_has_step(set.proof, c.world, f);
    }
}

/// Which places a call may change by the first `k` records: those that the footprint of the
/// function covers, whatever the world is; any place where there is no record of it.
pub open spec fn may_change(sets: Seq<FrameSet>, p: Prog, m: Model, k: nat) -> Touched
    decreases k,
{
    |f: FunctionID, ts: Seq<Ty>, vs: Seq<Val>, place: Place|
        forall|i: int|
            0 <= i < k && (#[trigger] sets[i]).fn_id == f ==> exists|world: Val|
                covers(
                    sets[i].proof,
                    place,
                    #[trigger] crate::meaning::given(p.func(f), vs.push(world)),
                    m,
                    may_change(sets, p, m, i as nat),
                )
}

/// Whether a record is what is found of its function, in a program with the same functions.
pub open spec fn is_found(set: FrameSet, p: Prog, w: WorldFunctions) -> bool {
    exists|c: Search|
        c.p.functions == p.functions && c.world == w && #[trigger] crate::frame_lemmas::framed(
            c,
            set.fn_id,
        ) == Finding::Made(set)
}

/// Whether a function with a record is one that the record can speak of: it takes the world
/// last, threads it, captures nothing, and is read as its body.
pub open spec fn is_readable(set: FrameSet, p: Prog, w: WorldFunctions, m: Model) -> bool {
    let f = p.func(set.fn_id);
    &&& f.signature.proof_params.len() == 0
    &&& f.signature.parameters.len() > 0
    &&& f.signature.parameters.last().ssa_value == crate::frame_lemmas::world_var()
    &&& is_threaded(f.body, p, w, set.world_proj_snd)
    &&& stays_plain(f.body, Seq::empty())
    &&& crate::meaning::reads_as(m, set.fn_id, f)
}

/// Threading the world depends on the functions of a program alone.
proof fn lemma_same_functions(n: Node, p: Prog, q: Prog, w: WorldFunctions, snd: bool)
    requires
        p.functions == q.functions,
        is_threaded(n, p, w, snd),
    ensures
        is_threaded(n, q, w, snd),
    decreases n,
{
    match n {
        Node::Let { pattern, value, body } => {
            if pattern.contains(crate::frame_lemmas::world_var()) {
                if let Node::If { then_branch, else_branch, .. } = *value {
                    lemma_same_functions(*then_branch, p, q, w, true);
                    lemma_same_functions(*else_branch, p, q, w, true);
                }
            }
            lemma_same_functions(*body, p, q, w, snd);
        },
        Node::If { then_branch, else_branch, .. } => {
            lemma_same_functions(*then_branch, p, q, w, snd);
            lemma_same_functions(*else_branch, p, q, w, snd);
        },
        _ => {},
    }
}

/// The operations on the world change what they should.
pub open spec fn operations_change_as_told(
    w: WorldFunctions,
    m: Model,
    fields: Fields,
) -> bool {
    &&& forall|ts: Seq<Ty>, vs: Seq<Val>, place: Place|
        ts.len() == 2 && vs.len() >= 3 && place != (Place {
            key_ty: ts[0],
            val_ty: ts[1],
            owner: vs[1],
            key: vs[2],
        }) ==> #[trigger] fields((m.call)(w.set_df, ts, vs), place) == fields(vs[0], place)
    &&& forall|ts: Seq<Ty>, vs: Seq<Val>, place: Place|
        ts.len() == 2 && vs.len() >= 3 && place != (Place {
            key_ty: ts[0],
            val_ty: ts[1],
            owner: vs[1],
            key: vs[2],
        }) ==> #[trigger] fields((m.call)(w.erase_df, ts, vs), place) == fields(vs[0], place)
    &&& forall|f: FunctionID, ts: Seq<Ty>, vs: Seq<Val>, place: Place|
        vs.len() > 0 && (f == w.put_owned || f == w.put_shared || f == w.put_frozen || f
            == w.emit_event) ==> #[trigger] fields((m.call)(f, ts, vs), place) == fields(
            vs[0],
            place,
        )
}

/// By records that were found, functions change what they may.
proof fn lemma_records_keep(
    sets: Seq<FrameSet>,
    p: Prog,
    w: WorldFunctions,
    m: Model,
    fields: Fields,
    k: nat,
)
    requires
        crate::meaning::takes_fields(m),
        operations_change_as_told(w, m, fields),
        k <= sets.len(),
        forall|i: int| 0 <= i < sets.len() ==> is_found(#[trigger] sets[i], p, w),
        forall|i: int| 0 <= i < sets.len() ==> is_readable(#[trigger] sets[i], p, w, m),
    ensures
        changes_as_told(p, w, m, fields, may_change(sets, p, m, k)),
    decreases k,
{
    let touched = may_change(sets, p, m, k);
    assert forall|f: FunctionID, ts: Seq<Ty>, vs: Seq<Val>, place: Place| #[trigger]
        keeps(f, ts, vs, place, p, w, m, fields, touched) by {
        let func = p.func(f);
        if crate::frame_lemmas::threads_world(p, w, f) && vs.len() > 0 && vs.len()
            == func.signature.parameters.len() && !touched(f, ts, vs.drop_last(), place) {
            let front = vs.drop_last();
            let i = choose|i: int|
                0 <= i < k && (#[trigger] sets[i]).fn_id == f && !(exists|world: Val|
                    covers(
                        sets[i].proof,
                        place,
                        #[trigger] crate::meaning::given(func, front.push(world)),
                        m,
                        may_change(sets, p, m, i as nat),
                    ));
            let before = may_change(sets, p, m, i as nat);
            lemma_records_keep(sets, p, w, m, fields, i as nat);
            assert(is_found(sets[i], p, w));
            assert(is_readable(sets[i], p, w, m));
            let c = choose|c: Search|
                c.p.functions == p.functions && c.world == w
                    && #[trigger] crate::frame_lemmas::framed(c, sets[i].fn_id) == Finding::Made(
                    sets[i],
                );
            assert(changes_as_told(c.p, w, m, fields, before)) by {
                assert forall|g: FunctionID, us: Seq<Ty>, xs: Seq<Val>, there: Place| #[trigger]
                    keeps(g, us, xs, there, c.p, w, m, fields, before) by {
                    assert(keeps(g, us, xs, there, p, w, m, fields, before));
                }
            }
            let snd = sets[i].world_proj_snd;
            lemma_same_functions(func.body, p, c.p, w, snd);
            assert(front.push(vs.last()) =~= vs);
            let env = crate::meaning::given(func, vs);
            assert(!covers(sets[i].proof, place, env, m, before));
            law_a_record_covers_what_its_function_changes(c, f, env, m, fields, before, place);
            let names = crate::meaning::given_names(func);
            assert(names.len() == vs.len());
            assert(names[names.len() - 1] == crate::frame_lemmas::world_var());
            assert(env(crate::frame_lemmas::world_var()) == vs.last());
            assert((m.call)(f, ts, vs) == crate::meaning::eval(func.body, env, m));
        }
    }
}

/// Whether the records from a position on were found, and the functions are those of a
/// program.
pub open spec fn all_found(r: Round, p: Prog, w: WorldFunctions, from: nat) -> bool {
    &&& r.p.functions == p.functions
    &&& from <= r.p.frame_lemmas.len()
    &&& forall|i: int|
        from <= i < r.p.frame_lemmas.len() ==> is_found(#[trigger] r.p.frame_lemmas[i], p, w)
}

/// A look at functions adds records that were found.
proof fn lemma_rounded_found(
    r: Round,
    w: WorldFunctions,
    ids: Seq<FunctionID>,
    k: nat,
    p: Prog,
    from: nat,
)
    requires
        all_found(r, p, w, from),
    ensures
        all_found(crate::frame_lemmas::rounded(r, w, ids, k), p, w, from),
    decreases k,
{
    if k > 0 && k <= ids.len() {
        lemma_rounded_found(r, w, ids, (k - 1) as nat, p, from);
        let s = crate::frame_lemmas::rounded(r, w, ids, (k - 1) as nat);
        let id = ids[k - 1];
        let t = crate::frame_lemmas::looked(s, w, ids, id);
        if !crate::frame_lemmas::is_known(s, id) {
            let c = Search {
                p: s.p,
                world: w,
                candidates: ids,
                done: s.done,
                dropped: s.dropped,
            };
            if let Finding::Made(set) = crate::frame_lemmas::framed(c, id) {
                assert(set.fn_id == id);
                assert(crate::frame_lemmas::framed(c, set.fn_id) == Finding::Made(set));
                assert(is_found(set, p, w));
                assert forall|i: int| from <= i < t.p.frame_lemmas.len() implies is_found(
                    #[trigger] t.p.frame_lemmas[i],
                    p,
                    w,
                ) by {
                    if i < s.p.frame_lemmas.len() {
                        assert(t.p.frame_lemmas[i] == s.p.frame_lemmas[i]);
                    }
                }
            }
        }
    }
}

/// The search adds records that were found.
proof fn lemma_settled_found(
    r: Round,
    w: WorldFunctions,
    ids: Seq<FunctionID>,
    p: Prog,
    from: nat,
)
    requires
        all_found(r, p, w, from),
    ensures
        all_found(crate::frame_lemmas::frames_settled(r, w, ids), p, w, from),
    decreases crate::frame_lemmas::unknown(r, ids, ids.len()),
{
    let s = crate::frame_lemmas::rounded(r, w, ids, ids.len());
    lemma_rounded_found(r, w, ids, ids.len(), p, from);
    if crate::frame_lemmas::unknown(s, ids, ids.len()) < crate::frame_lemmas::unknown(
        r,
        ids,
        ids.len(),
    ) {
        lemma_settled_found(s, w, ids, p, from);
    }
}

/// The records of a program are sound together. A function with a record changes no place
/// but those that its footprint covers, where the footprint of a callee counts as far as
/// the records tell, and a callee without a record may change any place.
pub proof fn law_records_cover_what_functions_change(
    p: Prog,
    w: WorldFunctions,
    m: Model,
    fields: Fields,
    i: int,
    ts: Seq<Ty>,
    vs: Seq<Val>,
    place: Place,
)
    requires
        p.world_functions == Some(w),
        p.frame_lemmas.len() == 0,
        crate::meaning::takes_fields(m),
        operations_change_as_told(w, m, fields),
        ({
            let sets = crate::frame_lemmas::with_frame_lemmas(p).frame_lemmas;
            &&& forall|j: int| 0 <= j < sets.len() ==> is_readable(#[trigger] sets[j], p, w, m)
            &&& 0 <= i < sets.len()
            &&& crate::frame_lemmas::threads_world(p, w, sets[i].fn_id)
            &&& vs.len() == p.func(sets[i].fn_id).signature.parameters.len()
        }),
    ensures
        ({
            let sets = crate::frame_lemmas::with_frame_lemmas(p).frame_lemmas;
            let f = sets[i].fn_id;
            !may_change(sets, p, m, sets.len())(f, ts, vs.drop_last(), place) ==> fields(
                world_in((m.call)(f, ts, vs), sets[i].world_proj_snd),
                place,
            ) == fields(vs.last(), place)
        }),
{
    let ids = crate::frame_lemmas::candidates_of(p.functions, w);
    let start = crate::frame_lemmas::search_start(p);
    lemma_settled_found(start, w, ids, p, 0);
    let sets = crate::frame_lemmas::with_frame_lemmas(p).frame_lemmas;
    lemma_records_keep(sets, p, w, m, fields, sets.len());
    let f = sets[i].fn_id;
    assert(is_found(sets[i], p, w));
    assert(is_readable(sets[i], p, w, m));
    let touched = may_change(sets, p, m, sets.len());
    assert(keeps(f, ts, vs, place, p, w, m, fields, touched));
}

} // verus!
