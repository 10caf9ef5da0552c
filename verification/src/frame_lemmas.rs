//! Which dynamic fields a function may change, with the structure of the proof
//! that it changes no others.

use crate::ir::{clone_names, IRNode, Node};
use crate::obligations::shorten;
use crate::program::{Func, Param, Parameter, Prog, Program, ProofParam, WorldFunctions};
use crate::segments::SUBST_MAX;
use crate::sizes::approx_size;
use crate::substitution::{bundle_subst, clone_subst, put_subst, Subst};
use crate::traverse::{
    any_node, calls_function, contains_id, contains_name, free_vars, name_is, push_name, Test,
};
use crate::types::{clone_types, FunctionID, Name, TempId, Ty, Type};
use vstd::prelude::*;

verus! {

/// The operations on the world that leave the dynamic fields alone.
#[derive(Clone, Copy, Debug, PartialEq, Eq, Structural)]
pub enum DfPreserveOp {
    PutOwned,
    PutShared,
    PutFrozen,
    EmitEvent,
}

impl DfPreserveOp {
    /// The name of the lemma for the operation.
    pub open spec fn lemma_name(self) -> Seq<char> {
        match self {
            DfPreserveOp::PutOwned => "World.frame_putOwned"@,
            DfPreserveOp::PutShared => "World.frame_putShared"@,
            DfPreserveOp::PutFrozen => "World.frame_putFrozen"@,
            DfPreserveOp::EmitEvent => "World.frame_emitEvent"@,
        }
    }

    /// The name of the lemma for the operation.
    pub fn wrapper_lemma(&self) -> (r: &'static str)
        ensures
            r@ == self.lemma_name(),
    {
        match self {
            DfPreserveOp::PutOwned => "World.frame_putOwned",
            DfPreserveOp::PutShared => "World.frame_putShared",
            DfPreserveOp::PutFrozen => "World.frame_putFrozen",
            DfPreserveOp::EmitEvent => "World.frame_emitEvent",
        }
    }
}

/// The structure of a frame proof.
#[derive(Debug)]
pub enum FrameProofNode {
    Refl,
    SetDf { key_ty: Type, val_ty: Type, uid: IRNode, key: IRNode },
    EraseDf { key_ty: Type, val_ty: Type, uid: IRNode, key: IRNode },
    DfPreserve { op: DfPreserveOp, obj_ty: Type },
    Callee { function: FunctionID, type_args: Vec<Type>, args: Vec<IRNode> },
    Comp(Box<FrameProofNode>, Box<FrameProofNode>),
    ItePair(Box<FrameProofNode>, Box<FrameProofNode>),
    BiteWorld(Box<FrameProofNode>, Box<FrameProofNode>),
}

/// What a [`FrameProofNode`] holds.
#[verifier::ext_equal]
pub enum Frame {
    Refl,
    SetDf { key_ty: Ty, val_ty: Ty, uid: Node, key: Node },
    EraseDf { key_ty: Ty, val_ty: Ty, uid: Node, key: Node },
    DfPreserve { op: DfPreserveOp, obj_ty: Ty },
    Callee { function: FunctionID, type_args: Seq<Ty>, args: Seq<Node> },
    Comp(Box<Frame>, Box<Frame>),
    ItePair(Box<Frame>, Box<Frame>),
    BiteWorld(Box<Frame>, Box<Frame>),
}

impl FrameProofNode {
    /// What the proof holds.
    pub open spec fn view(&self) -> Frame
        decreases self,
    {
        match *self {
            FrameProofNode::Refl => Frame::Refl,
            FrameProofNode::SetDf { key_ty, val_ty, uid, key } => Frame::SetDf {
                key_ty: key_ty@,
                val_ty: val_ty@,
                uid: uid@,
                key: key@,
            },
            FrameProofNode::EraseDf { key_ty, val_ty, uid, key } => Frame::EraseDf {
                key_ty: key_ty@,
                val_ty: val_ty@,
                uid: uid@,
                key: key@,
            },
            FrameProofNode::DfPreserve { op, obj_ty } => Frame::DfPreserve {
                op,
                obj_ty: obj_ty@,
            },
            FrameProofNode::Callee { function, type_args, args } => Frame::Callee {
                function,
                type_args: Type::views(type_args@),
                args: IRNode::views(args@),
            },
            FrameProofNode::Comp(a, b) => Frame::Comp(
                Box::new((*a).view()),
                Box::new((*b).view()),
            ),
            FrameProofNode::ItePair(a, b) => Frame::ItePair(
                Box::new((*a).view()),
                Box::new((*b).view()),
            ),
            FrameProofNode::BiteWorld(a, b) => Frame::BiteWorld(
                Box::new((*a).view()),
                Box::new((*b).view()),
            ),
        }
    }

    /// Whether the proof names no dynamic field and no callee.
    pub fn footprint_is_empty(&self) -> (r: bool)
        ensures
            r == self@.touches_nothing(),
        decreases self,
    {
        match self {
            FrameProofNode::Refl => true,
            FrameProofNode::DfPreserve { .. } => true,
            FrameProofNode::SetDf { .. } => false,
            FrameProofNode::EraseDf { .. } => false,
            FrameProofNode::Callee { .. } => false,
            FrameProofNode::Comp(a, b) => a.footprint_is_empty() && b.footprint_is_empty(),
            FrameProofNode::ItePair(a, b) => a.footprint_is_empty() && b.footprint_is_empty(),
            FrameProofNode::BiteWorld(a, b) => a.footprint_is_empty() && b.footprint_is_empty(),
        }
    }
}

impl Frame {
    /// Whether the proof names no dynamic field and no callee.
    pub open spec fn touches_nothing(self) -> bool
        decreases self,
    {
        match self {
            Frame::Refl => true,
            Frame::DfPreserve { .. } => true,
            Frame::SetDf { .. } => false,
            Frame::EraseDf { .. } => false,
            Frame::Callee { .. } => false,
            Frame::Comp(a, b) => a.touches_nothing() && b.touches_nothing(),
            Frame::ItePair(a, b) => a.touches_nothing() && b.touches_nothing(),
            Frame::BiteWorld(a, b) => a.touches_nothing() && b.touches_nothing(),
        }
    }
}

/// What was found of a function: the proof, where its result holds the world, and
/// the parameters that its footprint mentions.
#[derive(Debug)]
pub struct FrameLemmaSet {
    pub fn_id: FunctionID,
    pub proof: FrameProofNode,
    pub world_proj_snd: bool,
    pub footprint_params: Vec<Parameter>,
}

/// What a [`FrameLemmaSet`] holds.
#[verifier::ext_equal]
pub struct FrameSet {
    pub fn_id: FunctionID,
    pub proof: Frame,
    pub world_proj_snd: bool,
    pub footprint_params: Seq<Param>,
}

impl FrameLemmaSet {
    /// What the record holds.
    pub open spec fn view(&self) -> FrameSet {
        FrameSet {
            fn_id: self.fn_id,
            proof: self.proof@,
            world_proj_snd: self.world_proj_snd,
            footprint_params: Parameter::views(self.footprint_params@),
        }
    }

    /// What each of the records holds.
    pub open spec fn views(s: Seq<FrameLemmaSet>) -> Seq<FrameSet> {
        Seq::new(s.len(), |i: int| s[i]@)
    }
}

/// The variable that holds the world.
pub open spec fn world_var() -> Name {
    "__world"@
}

/// The type of the world.
pub open spec fn world_ty(w: WorldFunctions) -> Ty {
    Ty::Struct { struct_id: w.world_struct, type_args: Seq::empty() }
}

/// Where a result of this type holds the world: it is the world, or the second of
/// a pair.
pub open spec fn world_place(ret: Ty, world: Ty) -> Option<bool> {
    if ret == world {
        Some(false)
    } else {
        match ret {
            Ty::Tuple(ts) => if ts.len() == 2 && ts[1] == world {
                Some(true)
            } else {
                None
            },
            _ => None,
        }
    }
}

/// Where a result of this type holds the world.
fn world_proj(ret: &Type, world: &Type) -> (r: Option<bool>)
    ensures
        r == world_place(ret@, world@),
{
    if ret.same(world) {
        return Some(false);
    }
    match ret {
        Type::Tuple(ts) => {
            assert(Type::views(ts@).len() == ts@.len());
            if ts.len() == 2 {
                assert(Type::views(ts@)[1] == ts@[1]@);
                if ts[1].same(world) {
                    return Some(true);
                }
            }
            None
        },
        _ => None,
    }
}

/// Whether one of the parameters has the name.
pub open spec fn has_param(ps: Seq<Param>, x: Name) -> bool {
    exists|i: int| 0 <= i < ps.len() && (#[trigger] ps[i]).name == x
}

/// Whether one of the parameters is the world.
fn takes_world(ps: &Vec<Parameter>) -> (r: bool)
    ensures
        r == has_param(Parameter::views(ps@), world_var()),
{
    let ghost vs = Parameter::views(ps@);
    let mut i: usize = 0;
    while i < ps.len()
        invariant
            i <= ps.len(),
            vs == Parameter::views(ps@),
            forall|j: int| 0 <= j < i ==> (#[trigger] vs[j]).name != world_var(),
        decreases ps.len() - i,
    {
        assert(vs[i as int] == ps@[i as int]@);
        if name_is(&ps[i].name, "__world") {
            return true;
        }
        i += 1;
    }
    false
}

/// What a walk through a body works with: the program, the functions that work on
/// the world, the functions that may get a proof, those that have one, and those
/// that get none.
pub struct Search {
    pub p: Prog,
    pub world: WorldFunctions,
    pub candidates: Seq<FunctionID>,
    pub done: Seq<FunctionID>,
    pub dropped: Seq<FunctionID>,
}

/// The executable [`Search`].
struct WalkCtx<'a> {
    program: &'a Program,
    world: WorldFunctions,
    world_type: Type,
    candidates: &'a Vec<FunctionID>,
    done: &'a Vec<FunctionID>,
    dropped: &'a Vec<FunctionID>,
}

impl<'a> WalkCtx<'a> {
    /// What the context holds.
    spec fn view(&self) -> Search {
        Search {
            p: self.program@,
            world: self.world,
            candidates: self.candidates@,
            done: self.done@,
            dropped: self.dropped@,
        }
    }

    /// Whether the type of the world is at hand.
    spec fn ready(&self) -> bool {
        self.world_type@ == world_ty(self.world)
    }
}

/// Whether the function takes the world and returns it.
pub open spec fn threads_world(p: Prog, w: WorldFunctions, f: FunctionID) -> bool {
    p.has(f) && !p.func(f).is_native && has_param(p.func(f).signature.parameters, world_var())
        && world_place(p.func(f).signature.return_type, world_ty(w)) is Some
}

/// Why a function gets no proof.
#[derive(Clone, Copy, Debug, PartialEq, Eq, Structural)]
pub enum NoFrame {
    /// It does not return the world.
    NoWorld,
    /// It calls itself.
    Recursive,
    /// Its footprint would mention the world.
    MentionsWorld,
    /// Its footprint would mention something else than parameters.
    MentionsLocals,
    /// An owner, a key or an argument is too long, cannot be written over the
    /// parameters, or handles mutable references.
    NotStatable,
    /// A function that it calls gets no proof.
    CalleeWithout,
    /// An operation or a call has not the type arguments or arguments that it needs.
    Malformed,
    /// The world is bound to something else than an operation on the world.
    WorldReplaced,
    /// The world is taken out of a branch by a pattern that is no pair.
    WorldNotPaired,
    /// The world is taken out of something else than a branch or a call that returns it.
    WorldFromElsewhere,
    /// The world changes inside a value that does not hold it.
    WorldInside,
    /// The tuple that it ends in does not hold the world last.
    WorldNotReturned,
    /// It ends in an operation or a call that holds the world elsewhere than it does.
    TailDiffers,
    /// It ends in something else.
    TailUnknown,
    /// It waits for a function that waits for it.
    Waiting,
}

/// What came of a part of a walk: a proof, the need to wait for that of a callee,
/// or the finding that there is none.
pub enum Step {
    Made(Frame),
    Pending,
    Dropped(NoFrame),
}

/// The executable [`Step`].
enum StepOf {
    Made(FrameProofNode),
    Pending,
    Dropped(NoFrame),
}

impl StepOf {
    /// What the value holds.
    spec fn view(&self) -> Step {
        match *self {
            StepOf::Made(f) => Step::Made(f@),
            StepOf::Pending => Step::Pending,
            StepOf::Dropped(y) => Step::Dropped(y),
        }
    }
}

/// Whether the text of the expression depends on what is known of its variables.
pub open spec fn is_sensitive(n: Node) -> bool {
    n is WriteBack || n is MutableCompose || n is MutableBorrow || n is WriteRef || n is ReadRef
}

/// The test for such expressions.
struct Sensitive;

impl Test for Sensitive {
    closed spec fn holds(&self, n: Node) -> bool {
        is_sensitive(n)
    }

    fn check(&self, n: &IRNode) -> (r: bool) {
        match n {
            IRNode::WriteBack { .. } => true,
            IRNode::MutableCompose { .. } => true,
            IRNode::MutableBorrow { .. } => true,
            IRNode::WriteRef { .. } => true,
            IRNode::ReadRef(_) => true,
            _ => false,
        }
    }
}

/// Whether the text of a part of the expression depends on what is known of its
/// variables.
fn render_sensitive(n: &IRNode) -> (r: bool)
    ensures
        r == n@.any(|m: Node| is_sensitive(m)),
{
    let t = Sensitive;
    assert((|m: Node| t.holds(m)) =~= (|m: Node| is_sensitive(m)));
    any_node(n, &t)
}

/// The expression as a footprint or an argument shows it: over the parameters, of
/// limited size, and without parts whose text depends on anything else.
pub open spec fn shown(n: Node, s: Subst) -> Option<Node> {
    match crate::substitution::substituted(n, s) {
        Some(e) => if crate::sizes::text_len(e) > SUBST_MAX || e.any(
            |m: Node| is_sensitive(m),
        ) {
            None
        } else {
            Some(e)
        },
        None => None,
    }
}

/// Each of the expressions as a footprint or an argument shows it.
pub open spec fn all_shown(ns: Seq<Node>, s: Subst) -> Option<Seq<Node>>
    decreases ns.len(),
{
    if ns.len() == 0 {
        Some(Seq::empty())
    } else {
        match all_shown(ns.drop_last(), s) {
            Some(before) => match shown(ns.last(), s) {
                Some(e) => Some(before.push(e)),
                None => None,
            },
            None => None,
        }
    }
}

/// The expression as a footprint or an argument shows it.
fn subst_rendered(n: &IRNode, s: &Vec<(TempId, Option<IRNode>)>) -> (r: Option<IRNode>)
    ensures
        crate::substitution::optional_node(r) == shown(n@, crate::substitution::subst_views(s@)),
{
    match bundle_subst(n, s) {
        Some(e) => if approx_size(&e) > SUBST_MAX || render_sensitive(&e) {
            None
        } else {
            Some(e)
        },
        None => None,
    }
}

/// What is not shown in a part of a list is not shown in the list.
proof fn lemma_not_shown(ns: Seq<Node>, k: int, s: Subst)
    requires
        0 <= k <= ns.len(),
        all_shown(ns.subrange(0, k), s) is None,
    ensures
        all_shown(ns, s) is None,
    decreases ns.len(),
{
    if k == ns.len() {
        assert(ns.subrange(0, k) =~= ns);
    } else {
        assert(ns.drop_last().subrange(0, k) =~= ns.subrange(0, k));
        lemma_not_shown(ns.drop_last(), k, s);
    }
}

/// The first expressions as a footprint or an argument shows them.
fn show_all(
    ns: &Vec<IRNode>,
    n: usize,
    s: &Vec<(TempId, Option<IRNode>)>,
) -> (r: Option<Vec<IRNode>>)
    requires
        n <= ns@.len(),
    ensures
        match r {
            Some(out) => all_shown(
                IRNode::views(ns@).subrange(0, n as int),
                crate::substitution::subst_views(s@),
            ) == Some(IRNode::views(out@)),
            None => all_shown(
                IRNode::views(ns@).subrange(0, n as int),
                crate::substitution::subst_views(s@),
            ) is None,
        },
{
    let ghost front = IRNode::views(ns@).subrange(0, n as int);
    let ghost ss = crate::substitution::subst_views(s@);
    let mut out: Vec<IRNode> = Vec::new();
    let mut i: usize = 0;
    assert(front.subrange(0, 0) =~= Seq::empty());
    assert(IRNode::views(out@) =~= Seq::empty());
    while i < n
        invariant
            i <= n <= ns@.len(),
            front == IRNode::views(ns@).subrange(0, n as int),
            front.len() == n,
            ss == crate::substitution::subst_views(s@),
            all_shown(front.subrange(0, i as int), ss) == Some(IRNode::views(out@)),
        decreases n - i,
    {
        let ghost next = front.subrange(0, i + 1);
        assert(next.drop_last() =~= front.subrange(0, i as int));
        assert(next.last() == ns@[i as int]@);
        let ghost before = IRNode::views(out@);
        match subst_rendered(&ns[i], s) {
            Some(e) => {
                out.push(e);
                assert(IRNode::views(out@) =~= before.push(e@));
            },
            None => {
                proof {
                    lemma_not_shown(front, i + 1, ss);
                }
                return None;
            },
        }
        i += 1;
    }
    assert(front.subrange(0, i as int) =~= front);
    Some(out)
}

/// The two proofs, one after the other; the first may be absent.
pub open spec fn chained(acc: Option<Frame>, step: Frame) -> Frame {
    match acc {
        Some(prev) => Frame::Comp(Box::new(prev), Box::new(step)),
        None => step,
    }
}

/// The proof so far.
pub open spec fn finished(acc: Option<Frame>) -> Frame {
    match acc {
        Some(f) => f,
        None => Frame::Refl,
    }
}

/// What a proof that may be absent holds.
pub open spec fn optional_frame(f: Option<FrameProofNode>) -> Option<Frame> {
    match f {
        Some(f) => Some(f@),
        None => None,
    }
}

/// The two proofs, one after the other.
fn chain(acc: Option<FrameProofNode>, step: FrameProofNode) -> (r: FrameProofNode)
    ensures
        r@ == chained(optional_frame(acc), step@),
{
    match acc {
        Some(prev) => FrameProofNode::Comp(Box::new(prev), Box::new(step)),
        None => step,
    }
}

/// The proof so far.
fn finish(acc: Option<FrameProofNode>) -> (r: FrameProofNode)
    ensures
        r@ == finished(optional_frame(acc)),
{
    match acc {
        Some(f) => f,
        None => FrameProofNode::Refl,
    }
}

/// The operation on the world that leaves the dynamic fields alone.
pub open spec fn preserving(w: WorldFunctions, f: FunctionID) -> Option<DfPreserveOp> {
    if f == w.put_owned {
        Some(DfPreserveOp::PutOwned)
    } else if f == w.put_shared {
        Some(DfPreserveOp::PutShared)
    } else if f == w.put_frozen {
        Some(DfPreserveOp::PutFrozen)
    } else if f == w.emit_event {
        Some(DfPreserveOp::EmitEvent)
    } else {
        None
    }
}

/// The proof for an operation that leaves the dynamic fields alone; its first type
/// argument is the type of the object.
pub open spec fn preserve_step(op: DfPreserveOp, types: Seq<Ty>) -> Step {
    if types.len() > 0 {
        Step::Made(Frame::DfPreserve { op, obj_ty: types[0] })
    } else {
        Step::Dropped(NoFrame::Malformed)
    }
}

/// The proof for setting or erasing a dynamic field: its two type arguments are
/// those of the key and the value, and the owner and the key follow the world.
pub open spec fn df_step(w: WorldFunctions, f: FunctionID, types: Seq<Ty>, args: Seq<Node>, s: Subst) -> Step {
    if types.len() != 2 || args.len() < 3 {
        Step::Dropped(NoFrame::Malformed)
    } else {
        match (shown(args[1], s), shown(args[2], s)) {
            (Some(uid), Some(key)) => if f == w.set_df {
                Step::Made(Frame::SetDf { key_ty: types[0], val_ty: types[1], uid, key })
            } else {
                Step::Made(Frame::EraseDf { key_ty: types[0], val_ty: types[1], uid, key })
            },
            _ => Step::Dropped(NoFrame::NotStatable),
        }
    }
}

/// The proof for a call of a function that threads the world, which is its last
/// parameter: that of the callee, which has to be there before.
pub open spec fn callee_step(c: Search, f: FunctionID, types: Seq<Ty>, args: Seq<Node>, s: Subst) -> Step {
    let ps = c.p.func(f).signature.parameters;
    if !c.done.contains(f) {
        if c.candidates.contains(f) && !c.dropped.contains(f) {
            Step::Pending
        } else {
            Step::Dropped(NoFrame::CalleeWithout)
        }
    } else if !c.p.has(f) || args.len() != ps.len() || ps.len() == 0 || ps.last().name
        != world_var() {
        Step::Dropped(NoFrame::Malformed)
    } else {
        match all_shown(args.drop_last(), s) {
            Some(es) => Step::Made(Frame::Callee { function: f, type_args: types, args: es }),
            None => Step::Dropped(NoFrame::NotStatable),
        }
    }
}

/// Whether the function changes the world.
pub open spec fn changes_world(c: Search, f: FunctionID) -> bool {
    f == c.world.set_df || f == c.world.erase_df || preserving(c.world, f) is Some
        || threads_world(c.p, c.world, f)
}

/// Whether the expression calls a function that changes the world.
pub open spec fn touches_world(c: Search, n: Node) -> bool {
    n.any(|m: Node| m matches Node::Call { function, .. } && changes_world(c, function))
}

/// The proof for a call that the world is bound to.
pub open spec fn bound_call(c: Search, f: FunctionID, types: Seq<Ty>, args: Seq<Node>, s: Subst) -> Step {
    if f == c.world.set_df || f == c.world.erase_df {
        df_step(c.world, f, types, args, s)
    } else {
        match preserving(c.world, f) {
            Some(op) => preserve_step(op, types),
            None => if threads_world(c.p, c.world, f) {
                callee_step(c, f, types, args, s)
            } else {
                Step::Dropped(NoFrame::WorldReplaced)
            },
        }
    }
}

/// The proof for a call in the tail, whose result has to hold the world where the
/// caller's does.
pub open spec fn tail_call(c: Search, f: FunctionID, types: Seq<Ty>, args: Seq<Node>, s: Subst, snd: bool) -> Step {
    match preserving(c.world, f) {
        Some(op) => if snd {
            Step::Dropped(NoFrame::TailDiffers)
        } else {
            preserve_step(op, types)
        },
        None => if f == c.world.set_df || f == c.world.erase_df {
            if snd {
                Step::Dropped(NoFrame::TailDiffers)
            } else {
                df_step(c.world, f, types, args, s)
            }
        } else if !threads_world(c.p, c.world, f) {
            Step::Dropped(NoFrame::TailUnknown)
        } else if world_place(c.p.func(f).signature.return_type, world_ty(c.world)) == Some(snd) {
            callee_step(c, f, types, args, s)
        } else {
            Step::Dropped(NoFrame::TailDiffers)
        },
    }
}

/// A walk on its way: the values of variables, and the proof so far.
pub struct Way {
    pub subst: Subst,
    pub acc: Option<Frame>,
}

/// What came of a binding: the walk goes on, or it ends without a proof.
pub enum Went {
    On(Way),
    Pending,
    Dropped(NoFrame),
}

/// The values of variables with each variable of a pattern as its part of a value;
/// none where there is no value, or for the world where it is left out.
pub open spec fn parts_bound(s: Subst, pattern: Seq<Name>, v: Option<Node>, no_world: bool, k: nat) -> Subst
    decreases k,
{
    if k == 0 || k > pattern.len() {
        s
    } else {
        let before = parts_bound(s, pattern, v, no_world, (k - 1) as nat);
        let x = pattern[k - 1];
        let part = match v {
            Some(e) => if no_world && x == world_var() {
                None
            } else {
                Some(
                    Node::Let { pattern, value: Box::new(e), body: Box::new(Node::Var(x)) },
                )
            },
            None => None,
        };
        crate::assoc::put(before, x, part)
    }
}

/// The proofs of two branches as one.
pub open spec fn both(t: Step, e: Step, pair: bool) -> Step {
    match t {
        Step::Made(a) => match e {
            Step::Made(b) => if pair {
                Step::Made(Frame::ItePair(Box::new(a), Box::new(b)))
            } else {
                Step::Made(Frame::BiteWorld(Box::new(a), Box::new(b)))
            },
            _ => e,
        },
        _ => t,
    }
}

/// The walk with one more step.
pub open spec fn stepped(way: Way, step: Step, subst: Subst) -> Went {
    match step {
        Step::Made(f) => Went::On(Way { subst, acc: Some(chained(way.acc, f)) }),
        Step::Pending => Went::Pending,
        Step::Dropped(y) => Went::Dropped(y),
    }
}

/// The walk behind a binding. A binding of the world has to be an operation on the
/// world; one that takes the world out of a pair has to be a branch or a call that
/// returns it; nothing else may change the world.
pub open spec fn let_framed(c: Search, pattern: Seq<Name>, value: Node, way: Way) -> Went
    decreases value, 0nat,
{
    let v = crate::obligations::short_value(value, way.subst, false);
    if pattern.len() == 1 && pattern[0] == world_var() {
        match value {
            Node::Call { function, type_args, args } => stepped(
                way,
                bound_call(c, function, type_args, args, way.subst),
                crate::assoc::put(way.subst, world_var(), None),
            ),
            _ => Went::Dropped(NoFrame::WorldReplaced),
        }
    } else if pattern.len() > 1 && pattern.last() == world_var() {
        let step = match value {
            Node::If { then_branch, else_branch, .. } => if pattern.len() == 2 {
                let start = Way { subst: way.subst, acc: None };
                both(
                    tail_framed(c, *then_branch, start, true),
                    tail_framed(c, *else_branch, start, true),
                    true,
                )
            } else {
                Step::Dropped(NoFrame::WorldNotPaired)
            },
            Node::Call { function, type_args, args } => if threads_world(c.p, c.world, function) {
                callee_step(c, function, type_args, args, way.subst)
            } else {
                Step::Dropped(NoFrame::WorldFromElsewhere)
            },
            _ => Step::Dropped(NoFrame::WorldFromElsewhere),
        };
        stepped(way, step, parts_bound(way.subst, pattern, v, true, pattern.len()))
    } else if touches_world(c, value) {
        Went::Dropped(NoFrame::WorldInside)
    } else if pattern.len() == 0 {
        Went::On(way)
    } else if pattern.len() == 1 {
        Went::On(Way { subst: crate::assoc::put(way.subst, pattern[0], v), acc: way.acc })
    } else {
        Went::On(
            Way {
                subst: parts_bound(way.subst, pattern, v, false, pattern.len()),
                acc: way.acc,
            },
        )
    }
}

/// The proof for an expression whose value holds the world, as the second of a
/// pair or by itself.
pub open spec fn tail_framed(c: Search, n: Node, way: Way, snd: bool) -> Step
    decreases n, 1nat,
{
    match n {
        Node::Let { pattern, value, body } => match let_framed(c, pattern, *value, way) {
            Went::On(next) => tail_framed(c, *body, next, snd),
            Went::Pending => Step::Pending,
            Went::Dropped(y) => Step::Dropped(y),
        },
        Node::If { then_branch, else_branch, .. } => {
            let start = Way { subst: way.subst, acc: None };
            match both(
                tail_framed(c, *then_branch, start, snd),
                tail_framed(c, *else_branch, start, snd),
                snd,
            ) {
                Step::Made(f) => Step::Made(chained(way.acc, f)),
                other => other,
            }
        },
        Node::Tuple(elems) => if !snd {
            Step::Dropped(NoFrame::TailUnknown)
        } else if elems.len() > 0 && elems.last() == Node::Var(world_var()) {
            Step::Made(finished(way.acc))
        } else {
            Step::Dropped(NoFrame::WorldNotReturned)
        },
        Node::Var(x) => if !snd && x == world_var() {
            Step::Made(finished(way.acc))
        } else {
            Step::Dropped(NoFrame::TailUnknown)
        },
        Node::Call { function, type_args, args } => match tail_call(
            c,
            function,
            type_args,
            args,
            way.subst,
            snd,
        ) {
            Step::Made(f) => Step::Made(chained(way.acc, f)),
            other => other,
        },
        _ => Step::Dropped(NoFrame::TailUnknown),
    }
}

/// The walk of the executable code.
struct WayOf {
    subst: Vec<(TempId, Option<IRNode>)>,
    acc: Option<FrameProofNode>,
}

impl WayOf {
    /// What the value holds.
    spec fn view(&self) -> Way {
        Way {
            subst: crate::substitution::subst_views(self.subst@),
            acc: optional_frame(self.acc),
        }
    }
}

/// The executable [`Went`].
enum WentOf {
    On(WayOf),
    Pending,
    Dropped(NoFrame),
}

impl WentOf {
    /// What the value holds.
    spec fn view(&self) -> Went {
        match *self {
            WentOf::On(way) => Went::On(way@),
            WentOf::Pending => Went::Pending,
            WentOf::Dropped(y) => Went::Dropped(y),
        }
    }
}

/// The operation on the world that leaves the dynamic fields alone.
fn df_preserve_op(w: &WorldFunctions, f: FunctionID) -> (r: Option<DfPreserveOp>)
    ensures
        r == preserving(*w, f),
{
    if f == w.put_owned {
        Some(DfPreserveOp::PutOwned)
    } else if f == w.put_shared {
        Some(DfPreserveOp::PutShared)
    } else if f == w.put_frozen {
        Some(DfPreserveOp::PutFrozen)
    } else if f == w.emit_event {
        Some(DfPreserveOp::EmitEvent)
    } else {
        None
    }
}

/// The proof for an operation that leaves the dynamic fields alone.
fn make_preserve_step(op: DfPreserveOp, types: &Vec<Type>) -> (r: StepOf)
    ensures
        r@ == preserve_step(op, Type::views(types@)),
{
    assert(Type::views(types@).len() == types@.len());
    if types.len() > 0 {
        assert(Type::views(types@)[0] == types@[0]@);
        StepOf::Made(FrameProofNode::DfPreserve { op, obj_ty: types[0].clone() })
    } else {
        StepOf::Dropped(NoFrame::Malformed)
    }
}

/// The proof for setting or erasing a dynamic field.
fn df_op_step(
    w: &WorldFunctions,
    f: FunctionID,
    types: &Vec<Type>,
    args: &Vec<IRNode>,
    s: &Vec<(TempId, Option<IRNode>)>,
) -> (r: StepOf)
    ensures
        r@ == df_step(
            *w,
            f,
            Type::views(types@),
            IRNode::views(args@),
            crate::substitution::subst_views(s@),
        ),
{
    assert(Type::views(types@).len() == types@.len());
    assert(IRNode::views(args@).len() == args@.len());
    if types.len() != 2 || args.len() < 3 {
        return StepOf::Dropped(NoFrame::Malformed);
    }
    assert(Type::views(types@)[0] == types@[0]@);
    assert(Type::views(types@)[1] == types@[1]@);
    assert(IRNode::views(args@)[1] == args@[1]@);
    assert(IRNode::views(args@)[2] == args@[2]@);
    match (subst_rendered(&args[1], s), subst_rendered(&args[2], s)) {
        (Some(uid), Some(key)) => {
            let key_ty = types[0].clone();
            let val_ty = types[1].clone();
            if f == w.set_df {
                StepOf::Made(FrameProofNode::SetDf { key_ty, val_ty, uid, key })
            } else {
                StepOf::Made(FrameProofNode::EraseDf { key_ty, val_ty, uid, key })
            }
        },
        _ => StepOf::Dropped(NoFrame::NotStatable),
    }
}

/// Binds each variable of a pattern to its part of a value.
fn bind_parts(
    s: &mut Vec<(TempId, Option<IRNode>)>,
    pattern: &Vec<TempId>,
    v: &Option<IRNode>,
    no_world: bool,
)
    ensures
        crate::substitution::subst_views(final(s)@) == parts_bound(
            crate::substitution::subst_views(old(s)@),
            crate::ir::names(pattern@),
            crate::substitution::optional_node(*v),
            no_world,
            crate::ir::names(pattern@).len(),
        ),
{
    let ghost ps = crate::ir::names(pattern@);
    let ghost start = crate::substitution::subst_views(s@);
    let ghost vv = crate::substitution::optional_node(*v);
    assert(ps.len() == pattern@.len());
    let mut i: usize = 0;
    while i < pattern.len()
        invariant
            i <= pattern.len(),
            ps == crate::ir::names(pattern@),
            ps.len() == pattern@.len(),
            vv == crate::substitution::optional_node(*v),
            crate::substitution::subst_views(s@) == parts_bound(start, ps, vv, no_world, i as nat),
        decreases pattern.len() - i,
    {
        assert(ps[i as int] == pattern@[i as int]@);
        let part = match v {
            Some(e) => if no_world && name_is(&pattern[i], "__world") {
                None
            } else {
                let x = IRNode::Var(pattern[i].clone());
                assert(x@ == Node::Var(ps[i as int]));
                let n = IRNode::Let {
                    pattern: clone_names(pattern),
                    value: Box::new(e.clone()),
                    body: Box::new(x),
                };
                assert(n@ == Node::Let {
                    pattern: ps,
                    value: Box::new(e@),
                    body: Box::new(Node::Var(ps[i as int])),
                });
                Some(n)
            },
            None => None,
        };
        put_subst(s, &pattern[i], part);
        i += 1;
    }
}

/// The proofs of two branches as one.
fn join_branches(t: StepOf, e: StepOf, pair: bool) -> (r: StepOf)
    ensures
        r@ == both(t@, e@, pair),
{
    match t {
        StepOf::Made(a) => match e {
            StepOf::Made(b) => if pair {
                StepOf::Made(FrameProofNode::ItePair(Box::new(a), Box::new(b)))
            } else {
                StepOf::Made(FrameProofNode::BiteWorld(Box::new(a), Box::new(b)))
            },
            StepOf::Pending => StepOf::Pending,
            StepOf::Dropped(y) => StepOf::Dropped(y),
        },
        StepOf::Pending => StepOf::Pending,
        StepOf::Dropped(y) => StepOf::Dropped(y),
    }
}

/// The walk with one more step.
fn go_on(
    acc: Option<FrameProofNode>,
    step: StepOf,
    subst: Vec<(TempId, Option<IRNode>)>,
    Ghost(way): Ghost<Way>,
) -> (r: WentOf)
    requires
        optional_frame(acc) == way.acc,
    ensures
        r@ == stepped(way, step@, crate::substitution::subst_views(subst@)),
{
    match step {
        StepOf::Made(f) => WentOf::On(WayOf { subst, acc: Some(chain(acc, f)) }),
        StepOf::Pending => WentOf::Pending,
        StepOf::Dropped(y) => WentOf::Dropped(y),
    }
}

/// The proof behind those so far.
fn end_with(acc: Option<FrameProofNode>, step: StepOf) -> (r: StepOf)
    ensures
        r@ == (match step@ {
            Step::Made(f) => Step::Made(chained(optional_frame(acc), f)),
            other => other,
        }),
{
    match step {
        StepOf::Made(f) => StepOf::Made(chain(acc, f)),
        StepOf::Pending => StepOf::Pending,
        StepOf::Dropped(y) => StepOf::Dropped(y),
    }
}

impl<'a> WalkCtx<'a> {
    /// Whether the function takes the world and returns it.
    fn is_threaded_value_callee(&self, f: FunctionID) -> (r: bool)
        requires
            self.ready(),
        ensures
            r == threads_world(self@.p, self@.world, f),
    {
        if self.program.function_slot(f).is_none() {
            return false;
        }
        let callee = self.program.function(f);
        !callee.is_native && takes_world(&callee.signature.parameters) && world_proj(
            &callee.signature.return_type,
            &self.world_type,
        ).is_some()
    }

    /// Whether the function changes the world.
    fn does_change_world(&self, f: FunctionID) -> (r: bool)
        requires
            self.ready(),
        ensures
            r == changes_world(self@, f),
    {
        f == self.world.set_df || f == self.world.erase_df || df_preserve_op(
            &self.world,
            f,
        ).is_some() || self.is_threaded_value_callee(f)
    }

    /// Whether the expression calls a function that changes the world.
    fn touches_world(&self, n: &IRNode) -> (r: bool)
        requires
            self.ready(),
        ensures
            r == touches_world(self@, n@),
        decreases n@,
    {
        let ghost p = |m: Node|
            m matches Node::Call { function, .. } && changes_world(self@, function);
        if let IRNode::Call { function, .. } = n {
            if self.does_change_world(*function) {
                assert(p(n@));
                return true;
            }
        }
        assert(!p(n@));
        let ks = n.children();
        let mut i: usize = 0;
        proof {
            n@.lemma_kids_decrease();
        }
        while i < ks.len()
            invariant
                i <= ks.len(),
                self.ready(),
                p == (|m: Node|
                    m matches Node::Call { function, .. } && changes_world(self@, function)),
                ks@.len() == n@.kids().len(),
                forall|j: int| 0 <= j < ks@.len() ==> (#[trigger] ks@[j])@ == n@.kids()[j],
                forall|j: int| 0 <= j < i ==> !(#[trigger] n@.kids()[j]).any(p),
                forall|j: int| 0 <= j < n@.kids().len() ==> decreases_to!(
                    n@ => #[trigger] n@.kids()[j]
                ),
            decreases ks.len() - i,
        {
            assert(ks@[i as int]@ == n@.kids()[i as int]);
            if self.touches_world(ks[i]) {
                assert(n@.any_kid(p));
                return true;
            }
            i += 1;
        }
        assert(!n@.any_kid(p));
        false
    }

    /// The proof for a call of a function that threads the world.
    fn callee_step(
        &self,
        f: FunctionID,
        types: &Vec<Type>,
        args: &Vec<IRNode>,
        s: &Vec<(TempId, Option<IRNode>)>,
    ) -> (r: StepOf)
        ensures
            r@ == callee_step(
                self@,
                f,
                Type::views(types@),
                IRNode::views(args@),
                crate::substitution::subst_views(s@),
            ),
    {
        let ghost all = IRNode::views(args@);
        let ghost ss = crate::substitution::subst_views(s@);
        assert(all.len() == args@.len());
        if !contains_id(self.done, f) {
            if contains_id(self.candidates, f) && !contains_id(self.dropped, f) {
                return StepOf::Pending;
            }
            return StepOf::Dropped(NoFrame::CalleeWithout);
        }
        if self.program.function_slot(f).is_none() {
            return StepOf::Dropped(NoFrame::Malformed);
        }
        let ps = &self.program.function(f).signature.parameters;
        let ghost vs = Parameter::views(ps@);
        assert(vs.len() == ps@.len());
        assert(vs == self@.p.func(f).signature.parameters);
        if args.len() != ps.len() || ps.len() == 0 {
            return StepOf::Dropped(NoFrame::Malformed);
        }
        assert(vs.last() == ps@.last()@);
        if !name_is(&ps[ps.len() - 1].name, "__world") {
            return StepOf::Dropped(NoFrame::Malformed);
        }
        assert(all.drop_last() =~= all.subrange(0, all.len() - 1));
        match show_all(args, args.len() - 1, s) {
            Some(out) => StepOf::Made(
                FrameProofNode::Callee { function: f, type_args: clone_types(types), args: out },
            ),
            None => StepOf::Dropped(NoFrame::NotStatable),
        }
    }

    /// The proof for a call that the world is bound to.
    fn bound_call(
        &self,
        f: FunctionID,
        types: &Vec<Type>,
        args: &Vec<IRNode>,
        s: &Vec<(TempId, Option<IRNode>)>,
    ) -> (r: StepOf)
        requires
            self.ready(),
        ensures
            r@ == bound_call(
                self@,
                f,
                Type::views(types@),
                IRNode::views(args@),
                crate::substitution::subst_views(s@),
            ),
    {
        if f == self.world.set_df || f == self.world.erase_df {
            return df_op_step(&self.world, f, types, args, s);
        }
        match df_preserve_op(&self.world, f) {
            Some(op) => make_preserve_step(op, types),
            None => if self.is_threaded_value_callee(f) {
                self.callee_step(f, types, args, s)
            } else {
                StepOf::Dropped(NoFrame::WorldReplaced)
            },
        }
    }

    /// The proof for a call in the tail.
    fn tail_call(
        &self,
        f: FunctionID,
        types: &Vec<Type>,
        args: &Vec<IRNode>,
        s: &Vec<(TempId, Option<IRNode>)>,
        snd: bool,
    ) -> (r: StepOf)
        requires
            self.ready(),
        ensures
            r@ == tail_call(
                self@,
                f,
                Type::views(types@),
                IRNode::views(args@),
                crate::substitution::subst_views(s@),
                snd,
            ),
    {
        match df_preserve_op(&self.world, f) {
            Some(op) => if snd {
                StepOf::Dropped(NoFrame::TailDiffers)
            } else {
                make_preserve_step(op, types)
            },
            None => {
                if f == self.world.set_df || f == self.world.erase_df {
                    if snd {
                        return StepOf::Dropped(NoFrame::TailDiffers);
                    }
                    return df_op_step(&self.world, f, types, args, s);
                }
                if !self.is_threaded_value_callee(f) {
                    return StepOf::Dropped(NoFrame::TailUnknown);
                }
                let place = world_proj(
                    &self.program.function(f).signature.return_type,
                    &self.world_type,
                );
                match place {
                    Some(b) => if b == snd {
                        self.callee_step(f, types, args, s)
                    } else {
                        StepOf::Dropped(NoFrame::TailDiffers)
                    },
                    None => StepOf::Dropped(NoFrame::TailDiffers),
                }
            },
        }
    }

    /// The walk behind a binding.
    #[verifier::rlimit(40)]
    fn step_let(&self, pattern: &Vec<TempId>, value: &IRNode, way: WayOf) -> (r: WentOf)
        requires
            self.ready(),
        ensures
            r@ == let_framed(self@, crate::ir::names(pattern@), value@, way@),
        decreases value@, 0nat,
    {
        let ghost ps = crate::ir::names(pattern@);
        let ghost from = way@;
        assert(ps.len() == pattern@.len());
        let WayOf { subst, acc } = way;
        let mut subst = subst;
        if pattern.len() == 1 {
            assert(ps[0] == pattern@[0]@);
        } else if pattern.len() > 1 {
            assert(ps.last() == pattern@.last()@);
        }
        if pattern.len() == 1 && name_is(&pattern[0], "__world") {
            return match value {
                IRNode::Call { function, type_args, args } => {
                    let step = self.bound_call(*function, type_args, args, &subst);
                    put_subst(&mut subst, &pattern[0], None);
                    go_on(acc, step, subst, Ghost(from))
                },
                _ => WentOf::Dropped(NoFrame::WorldReplaced),
            };
        }
        if pattern.len() > 1 && name_is(&pattern[pattern.len() - 1], "__world") {
            let step = match value {
                IRNode::If { then_branch, else_branch, .. } => if pattern.len() == 2 {
                    let first = WayOf { subst: clone_subst(&subst), acc: None };
                    let t = self.tail_proof(then_branch, first, true);
                    let second = WayOf { subst: clone_subst(&subst), acc: None };
                    let e = self.tail_proof(else_branch, second, true);
                    join_branches(t, e, true)
                } else {
                    StepOf::Dropped(NoFrame::WorldNotPaired)
                },
                IRNode::Call { function, type_args, args } => if self.is_threaded_value_callee(
                    *function,
                ) {
                    self.callee_step(*function, type_args, args, &subst)
                } else {
                    StepOf::Dropped(NoFrame::WorldFromElsewhere)
                },
                _ => StepOf::Dropped(NoFrame::WorldFromElsewhere),
            };
            let v = shorten(value, &subst, false);
            bind_parts(&mut subst, pattern, &v, true);
            return go_on(acc, step, subst, Ghost(from));
        }
        if self.touches_world(value) {
            return WentOf::Dropped(NoFrame::WorldInside);
        }
        if pattern.len() == 0 {
            return WentOf::On(WayOf { subst, acc });
        }
        let v = shorten(value, &subst, false);
        if pattern.len() == 1 {
            put_subst(&mut subst, &pattern[0], v);
        } else {
            bind_parts(&mut subst, pattern, &v, false);
        }
        WentOf::On(WayOf { subst, acc })
    }

    /// The proof for an expression whose value holds the world.
    #[verifier::rlimit(40)]
    fn tail_proof(&self, n: &IRNode, way: WayOf, snd: bool) -> (r: StepOf)
        requires
            self.ready(),
        ensures
            r@ == tail_framed(self@, n@, way@, snd),
        decreases n@, 1nat,
    {
        match n {
            IRNode::Let { pattern, value, body } => match self.step_let(pattern, value, way) {
                WentOf::On(next) => self.tail_proof(body, next, snd),
                WentOf::Pending => StepOf::Pending,
                WentOf::Dropped(y) => StepOf::Dropped(y),
            },
            IRNode::If { then_branch, else_branch, .. } => {
                let first = WayOf { subst: clone_subst(&way.subst), acc: None };
                let t = self.tail_proof(then_branch, first, snd);
                let second = WayOf { subst: clone_subst(&way.subst), acc: None };
                let e = self.tail_proof(else_branch, second, snd);
                end_with(way.acc, join_branches(t, e, snd))
            },
            IRNode::Tuple(elems) => {
                assert(IRNode::views(elems@).len() == elems@.len());
                if !snd {
                    return StepOf::Dropped(NoFrame::TailUnknown);
                }
                if elems.len() == 0 {
                    return StepOf::Dropped(NoFrame::WorldNotReturned);
                }
                let last = &elems[elems.len() - 1];
                assert(IRNode::views(elems@).last() == last@);
                let is_world = match last {
                    IRNode::Var(x) => name_is(x, "__world"),
                    _ => false,
                };
                assert(is_world == (last@ == Node::Var(world_var())));
                if is_world {
                    StepOf::Made(finish(way.acc))
                } else {
                    StepOf::Dropped(NoFrame::WorldNotReturned)
                }
            },
            IRNode::Var(x) => if !snd && name_is(x, "__world") {
                StepOf::Made(finish(way.acc))
            } else {
                StepOf::Dropped(NoFrame::TailUnknown)
            },
            IRNode::Call { function, type_args, args } => {
                let step = self.tail_call(*function, type_args, args, &way.subst, snd);
                end_with(way.acc, step)
            },
            _ => StepOf::Dropped(NoFrame::TailUnknown),
        }
    }
}

/// The record of a function.
pub open spec fn set_of(sets: Seq<FrameSet>, f: FunctionID) -> Option<FrameSet>
    decreases sets.len(),
{
    if sets.len() == 0 {
        None
    } else {
        match set_of(sets.drop_last(), f) {
            Some(s) => Some(s),
            None => if sets.last().fn_id == f {
                Some(sets.last())
            } else {
                None
            },
        }
    }
}

/// The record of a function.
fn find_set(program: &Program, f: FunctionID) -> (r: Option<&FrameLemmaSet>)
    ensures
        match r {
            Some(s) => set_of(program@.frame_lemmas, f) == Some(s@),
            None => set_of(program@.frame_lemmas, f) is None,
        },
{
    let ghost all = program@.frame_lemmas;
    let mut out: Option<usize> = None;
    let mut i: usize = 0;
    assert(all.subrange(0, 0) =~= Seq::empty());
    while i < program.frame_lemmas.len()
        invariant
            i <= program.frame_lemmas.len(),
            all == program@.frame_lemmas,
            match out {
                Some(j) => j < program.frame_lemmas@.len() && set_of(
                    all.subrange(0, i as int),
                    f,
                ) == Some(program.frame_lemmas@[j as int]@),
                None => set_of(all.subrange(0, i as int), f) is None,
            },
        decreases program.frame_lemmas.len() - i,
    {
        let ghost next = all.subrange(0, i + 1);
        assert(next.drop_last() =~= all.subrange(0, i as int));
        assert(next.last() == program.frame_lemmas@[i as int]@);
        if out.is_none() && program.frame_lemmas[i].fn_id == f {
            out = Some(i);
        }
        i += 1;
    }
    assert(all.subrange(0, i as int) =~= all);
    match out {
        Some(j) => Some(&program.frame_lemmas[j]),
        None => None,
    }
}

/// The position of the parameter that holds a variable.
pub open spec fn param_place(ps: Seq<Param>, x: Name) -> Option<nat>
    decreases ps.len(),
{
    if ps.len() == 0 {
        None
    } else {
        match param_place(ps.drop_last(), x) {
            Some(i) => Some(i),
            None => if ps.last().ssa_value == x {
                Some((ps.len() - 1) as nat)
            } else {
                None
            },
        }
    }
}

/// The position of the parameter that holds a variable.
fn find_param(ps: &Vec<Parameter>, x: &TempId) -> (r: Option<usize>)
    ensures
        match r {
            Some(i) => param_place(Parameter::views(ps@), x@) == Some(i as nat),
            None => param_place(Parameter::views(ps@), x@) is None,
        },
{
    let ghost vs = Parameter::views(ps@);
    let mut out: Option<usize> = None;
    let mut i: usize = 0;
    assert(vs.subrange(0, 0) =~= Seq::empty());
    while i < ps.len()
        invariant
            i <= ps.len(),
            vs == Parameter::views(ps@),
            match out {
                Some(j) => param_place(vs.subrange(0, i as int), x@) == Some(j as nat),
                None => param_place(vs.subrange(0, i as int), x@) is None,
            },
        decreases ps.len() - i,
    {
        let ghost next = vs.subrange(0, i + 1);
        assert(next.drop_last() =~= vs.subrange(0, i as int));
        assert(next.last() == ps@[i as int]@);
        if out.is_none() && ps[i].ssa_value == *x {
            out = Some(i);
        }
        i += 1;
    }
    assert(vs.subrange(0, i as int) =~= vs);
    out
}

/// Whether the variable is free in what a callee is given for a parameter that its
/// footprint mentions.
pub open spec fn given_free(p: Prog, f: FunctionID, args: Seq<Node>, q: Param, x: Name) -> bool {
    p.has(f) && match param_place(p.func(f).signature.parameters, q.ssa_value) {
        Some(i) => i < args.len() && args[i as int].free(x),
        None => false,
    }
}

impl Frame {
    /// Whether the variable is free in the footprint.
    pub open spec fn footprint_free(self, x: Name, p: Prog) -> bool
        decreases self,
    {
        match self {
            Frame::Refl => false,
            Frame::DfPreserve { .. } => false,
            Frame::SetDf { uid, key, .. } => uid.free(x) || key.free(x),
            Frame::EraseDf { uid, key, .. } => uid.free(x) || key.free(x),
            Frame::Callee { function, args, .. } => match set_of(p.frame_lemmas, function) {
                Some(s) => exists|k: int|
                    0 <= k < s.footprint_params.len() && given_free(
                        p,
                        function,
                        args,
                        #[trigger] s.footprint_params[k],
                        x,
                    ),
                None => false,
            },
            Frame::Comp(a, b) => a.footprint_free(x, p) || b.footprint_free(x, p),
            Frame::ItePair(a, b) => a.footprint_free(x, p) || b.footprint_free(x, p),
            Frame::BiteWorld(a, b) => a.footprint_free(x, p) || b.footprint_free(x, p),
        }
    }
}

/// Adds names to a list, each once.
fn add_names(out: &mut Vec<TempId>, more: &Vec<TempId>)
    ensures
        forall|x: Name| #[trigger]
            crate::ir::names(final(out)@).contains(x) <==> crate::ir::names(old(out)@).contains(x)
                || crate::ir::names(more@).contains(x),
{
    let ghost start = crate::ir::names(out@);
    let ghost ms = crate::ir::names(more@);
    let mut i: usize = 0;
    while i < more.len()
        invariant
            i <= more.len(),
            ms == crate::ir::names(more@),
            forall|x: Name| #[trigger]
                crate::ir::names(out@).contains(x) <==> start.contains(x) || exists|j: int|
                    0 <= j < i && #[trigger] ms[j] == x,
        decreases more.len() - i,
    {
        let ghost before = crate::ir::names(out@);
        push_name(out, &more[i]);
        assert(ms[i as int] == more@[i as int]@);
        assert forall|x: Name| #[trigger]
            crate::ir::names(out@).contains(x) <==> start.contains(x) || exists|j: int|
                0 <= j < i + 1 && #[trigger] ms[j] == x by {
            assert(crate::ir::names(out@).contains(x) <==> before.contains(x) || x
                == ms[i as int]);
        }
        i += 1;
    }
    assert forall|x: Name| #[trigger]
        crate::ir::names(out@).contains(x) <==> start.contains(x) || ms.contains(x) by {
        if ms.contains(x) {
            let j = choose|j: int| 0 <= j < ms.len() && ms[j] == x;
            assert(0 <= j < i && ms[j] == x);
        }
    }
}

impl FrameProofNode {
    /// Adds the variables that are free in the footprint to a list.
    fn footprint_free_vars(&self, out: &mut Vec<TempId>, program: &Program)
        ensures
            forall|x: Name| #[trigger]
                crate::ir::names(final(out)@).contains(x) <==> crate::ir::names(
                    old(out)@,
                ).contains(x) || self@.footprint_free(x, program@),
        decreases self,
    {
        match self {
            FrameProofNode::Refl => {},
            FrameProofNode::DfPreserve { .. } => {},
            FrameProofNode::SetDf { uid, key, .. } => {
                add_names(out, &free_vars(uid));
                add_names(out, &free_vars(key));
            },
            FrameProofNode::EraseDf { uid, key, .. } => {
                add_names(out, &free_vars(uid));
                add_names(out, &free_vars(key));
            },
            FrameProofNode::Callee { function, args, .. } => {
                callee_free_vars(*function, args, out, program);
            },
            FrameProofNode::Comp(a, b) => {
                a.footprint_free_vars(out, program);
                b.footprint_free_vars(out, program);
            },
            FrameProofNode::ItePair(a, b) => {
                a.footprint_free_vars(out, program);
                b.footprint_free_vars(out, program);
            },
            FrameProofNode::BiteWorld(a, b) => {
                a.footprint_free_vars(out, program);
                b.footprint_free_vars(out, program);
            },
        }
    }
}

/// Adds the variables that are free in what a callee is given for the parameters
/// that its footprint mentions.
fn callee_free_vars(
    f: FunctionID,
    args: &Vec<IRNode>,
    out: &mut Vec<TempId>,
    program: &Program,
)
    ensures
        forall|x: Name| #[trigger]
            crate::ir::names(final(out)@).contains(x) <==> crate::ir::names(old(out)@).contains(x)
                || match set_of(program@.frame_lemmas, f) {
                Some(s) => exists|k: int|
                    0 <= k < s.footprint_params.len() && given_free(
                        program@,
                        f,
                        IRNode::views(args@),
                        #[trigger] s.footprint_params[k],
                        x,
                    ),
                None => false,
            },
{
    let ghost p = program@;
    let ghost all = IRNode::views(args@);
    let ghost start = crate::ir::names(out@);
    assert(all.len() == args@.len());
    let set = match find_set(program, f) {
        Some(s) => s,
        None => {
            return;
        },
    };
    if program.function_slot(f).is_none() {
        return;
    }
    let params = &program.function(f).signature.parameters;
    let ghost fps = set@.footprint_params;
    let mut i: usize = 0;
    while i < set.footprint_params.len()
        invariant
            i <= set.footprint_params.len(),
            p == program@,
            p.has(f),
            Parameter::views(params@) == p.func(f).signature.parameters,
            all == IRNode::views(args@),
            all.len() == args@.len(),
            fps == Parameter::views(set.footprint_params@),
            forall|x: Name| #[trigger]
                crate::ir::names(out@).contains(x) <==> start.contains(x) || exists|k: int|
                    0 <= k < i && given_free(p, f, all, #[trigger] fps[k], x),
        decreases set.footprint_params.len() - i,
    {
        let ghost before = crate::ir::names(out@);
        assert(fps[i as int] == set.footprint_params@[i as int]@);
        if let Some(k) = find_param(params, &set.footprint_params[i].ssa_value) {
            if k < args.len() {
                assert(all[k as int] == args@[k as int]@);
                add_names(out, &free_vars(&args[k]));
            }
        }
        assert forall|x: Name| #[trigger]
            crate::ir::names(out@).contains(x) <==> start.contains(x) || exists|k: int|
                0 <= k < i + 1 && given_free(p, f, all, #[trigger] fps[k], x) by {
            assert(crate::ir::names(out@).contains(x) <==> before.contains(x) || given_free(
                p,
                f,
                all,
                fps[i as int],
                x,
            ));
        }
        i += 1;
    }
}

/// Whether one of the parameters holds the variable.
pub open spec fn holds_var(ps: Seq<Param>, x: Name) -> bool {
    exists|i: int| 0 <= i < ps.len() && (#[trigger] ps[i]).ssa_value == x
}

/// The parameters that a footprint mentions, each variable once; none where the
/// world is one of them.
pub open spec fn mentioned_params(ps: Seq<Param>, f: Frame, p: Prog) -> Option<Seq<Param>>
    decreases ps.len(),
{
    if ps.len() == 0 {
        Some(Seq::empty())
    } else {
        match mentioned_params(ps.drop_last(), f, p) {
            Some(before) => {
                let q = ps.last();
                if f.footprint_free(q.ssa_value, p) && !holds_var(before, q.ssa_value) {
                    if q.name == world_var() {
                        None
                    } else {
                        Some(before.push(q))
                    }
                } else {
                    Some(before)
                }
            },
            None => None,
        }
    }
}

/// Whether the footprint mentions nothing but parameters.
pub open spec fn closed_over(ps: Seq<Param>, f: Frame, p: Prog) -> bool {
    forall|x: Name| f.footprint_free(x, p) ==> #[trigger] holds_var(ps, x)
}

/// What was found of a function.
pub enum Finding {
    Made(FrameSet),
    Pending,
    Dropped(NoFrame),
}

/// What is found of a function: the proof for its body, if its footprint mentions
/// only parameters other than the world. A function that calls itself gets none.
pub open spec fn framed(c: Search, id: FunctionID) -> Finding {
    let f = c.p.func(id);
    match world_place(f.signature.return_type, world_ty(c.world)) {
        Some(snd) => if f.body.calls(id) {
            Finding::Dropped(NoFrame::Recursive)
        } else {
            match tail_framed(c, f.body, Way { subst: Seq::empty(), acc: None }, snd) {
                Step::Made(proof) => match mentioned_params(f.signature.parameters, proof, c.p) {
                    Some(ps) => if closed_over(f.signature.parameters, proof, c.p) {
                        Finding::Made(
                            FrameSet {
                                fn_id: id,
                                proof,
                                world_proj_snd: snd,
                                footprint_params: ps,
                            },
                        )
                    } else {
                        Finding::Dropped(NoFrame::MentionsLocals)
                    },
                    None => Finding::Dropped(NoFrame::MentionsWorld),
                },
                Step::Pending => Finding::Pending,
                Step::Dropped(y) => Finding::Dropped(y),
            }
        },
        None => Finding::Dropped(NoFrame::NoWorld),
    }
}

/// The executable [`Finding`].
enum FindingOf {
    Made(FrameLemmaSet),
    Pending,
    Dropped(NoFrame),
}

impl FindingOf {
    /// What the value holds.
    spec fn view(&self) -> Finding {
        match *self {
            FindingOf::Made(s) => Finding::Made(s@),
            FindingOf::Pending => Finding::Pending,
            FindingOf::Dropped(y) => Finding::Dropped(y),
        }
    }
}

/// Whether one of the parameters holds the variable.
fn does_hold_var(ps: &Vec<Parameter>, x: &TempId) -> (r: bool)
    ensures
        r == holds_var(Parameter::views(ps@), x@),
{
    let ghost vs = Parameter::views(ps@);
    let mut i: usize = 0;
    while i < ps.len()
        invariant
            i <= ps.len(),
            vs == Parameter::views(ps@),
            forall|j: int| 0 <= j < i ==> (#[trigger] vs[j]).ssa_value != x@,
        decreases ps.len() - i,
    {
        assert(vs[i as int] == ps@[i as int]@);
        if ps[i].ssa_value == *x {
            return true;
        }
        i += 1;
    }
    false
}

/// No parameters can be mentioned where those of a part cannot.
proof fn lemma_no_params(ps: Seq<Param>, k: int, f: Frame, p: Prog)
    requires
        0 <= k <= ps.len(),
        mentioned_params(ps.subrange(0, k), f, p) is None,
    ensures
        mentioned_params(ps, f, p) is None,
    decreases ps.len(),
{
    if k == ps.len() {
        assert(ps.subrange(0, k) =~= ps);
    } else {
        assert(ps.drop_last().subrange(0, k) =~= ps.subrange(0, k));
        lemma_no_params(ps.drop_last(), k, f, p);
    }
}

/// The parameters that a footprint mentions, where it mentions nothing else.
fn find_params(ps: &Vec<Parameter>, proof: &FrameProofNode, program: &Program) -> (r: Result<
    Vec<Parameter>,
    NoFrame,
>)
    ensures
        match r {
            Ok(qs) => mentioned_params(Parameter::views(ps@), proof@, program@) == Some(
                Parameter::views(qs@),
            ) && closed_over(Parameter::views(ps@), proof@, program@),
            Err(why) => if mentioned_params(Parameter::views(ps@), proof@, program@) is None {
                why == NoFrame::MentionsWorld
            } else {
                why == NoFrame::MentionsLocals && !closed_over(
                    Parameter::views(ps@),
                    proof@,
                    program@,
                )
            },
        },
{
    let ghost vs = Parameter::views(ps@);
    let ghost f = proof@;
    let ghost p = program@;
    let mut free: Vec<TempId> = Vec::new();
    proof.footprint_free_vars(&mut free, program);
    let ghost fs = crate::ir::names(free@);
    assert(forall|x: Name| #[trigger] fs.contains(x) <==> f.footprint_free(x, p));
    let mut out: Vec<Parameter> = Vec::new();
    let mut k: usize = 0;
    assert(vs.subrange(0, 0) =~= Seq::empty());
    assert(Parameter::views(out@) =~= Seq::empty());
    while k < ps.len()
        invariant
            k <= ps.len(),
            fs == crate::ir::names(free@),
            vs == Parameter::views(ps@),
            f == proof@,
            p == program@,
            forall|x: Name| #[trigger] fs.contains(x) <==> f.footprint_free(x, p),
            mentioned_params(vs.subrange(0, k as int), f, p) == Some(Parameter::views(out@)),
        decreases ps.len() - k,
    {
        let ghost next = vs.subrange(0, k + 1);
        assert(next.drop_last() =~= vs.subrange(0, k as int));
        assert(next.last() == ps@[k as int]@);
        let ghost before = Parameter::views(out@);
        if contains_name(&free, &ps[k].ssa_value) && !does_hold_var(&out, &ps[k].ssa_value) {
            if name_is(&ps[k].name, "__world") {
                proof {
                    lemma_no_params(vs, k + 1, f, p);
                }
                return Err(NoFrame::MentionsWorld);
            }
            out.push(ps[k].clone());
            assert(Parameter::views(out@) =~= before.push(ps@[k as int]@));
        }
        k += 1;
    }
    assert(vs.subrange(0, k as int) =~= vs);
    let mut i: usize = 0;
    while i < free.len()
        invariant
            i <= free.len(),
            fs == crate::ir::names(free@),
            vs == Parameter::views(ps@),
            f == proof@,
            p == program@,
            forall|x: Name| #[trigger] fs.contains(x) <==> f.footprint_free(x, p),
            mentioned_params(vs, f, p) == Some(Parameter::views(out@)),
            forall|j: int| 0 <= j < i ==> holds_var(vs, #[trigger] fs[j]),
        decreases free.len() - i,
    {
        assert(fs[i as int] == free@[i as int]@);
        assert(fs.contains(fs[i as int]));
        if !does_hold_var(ps, &free[i]) {
            assert(f.footprint_free(fs[i as int], p) && !holds_var(vs, fs[i as int]));
            return Err(NoFrame::MentionsLocals);
        }
        i += 1;
    }
    assert forall|x: Name| f.footprint_free(x, p) implies #[trigger] holds_var(vs, x) by {
        assert(fs.contains(x));
        let j = choose|j: int| 0 <= j < fs.len() && fs[j] == x;
        assert(holds_var(vs, fs[j]));
    }
    Ok(out)
}

impl<'a> WalkCtx<'a> {
    /// What is found of a function.
    fn analyze_fn(&self, id: FunctionID) -> (r: FindingOf)
        requires
            self.ready(),
            self@.p.has(id),
        ensures
            r@ == framed(self@, id),
    {
        let f = self.program.function(id);
        let snd = match world_proj(&f.signature.return_type, &self.world_type) {
            Some(snd) => snd,
            None => {
                return FindingOf::Dropped(NoFrame::NoWorld);
            },
        };
        if calls_function(&f.body, id) {
            return FindingOf::Dropped(NoFrame::Recursive);
        }
        let way = WayOf { subst: Vec::new(), acc: None };
        assert(crate::substitution::subst_views(way.subst@) =~= Seq::empty());
        match self.tail_proof(&f.body, way, snd) {
            StepOf::Made(proof) => match find_params(
                &f.signature.parameters,
                &proof,
                self.program,
            ) {
                Ok(ps) => FindingOf::Made(
                    FrameLemmaSet { fn_id: id, proof, world_proj_snd: snd, footprint_params: ps },
                ),
                Err(why) => FindingOf::Dropped(why),
            },
            StepOf::Pending => FindingOf::Pending,
            StepOf::Dropped(y) => FindingOf::Dropped(y),
        }
    }
}

/// Whether a function may get a proof: it is a plain function that takes the world
/// and returns it, and takes nothing by mutable reference.
pub open spec fn is_candidate(f: Func, w: WorldFunctions) -> bool {
    !f.is_native && f.theorem is None && f.mutual_group_id is None
        && f.signature.proof_params.len() == 0 && has_param(
        f.signature.parameters,
        world_var(),
    ) && !takes_mutably(f.signature.parameters) && world_place(
        f.signature.return_type,
        world_ty(w),
    ) is Some
}

/// Whether one of the parameters is a mutable reference.
pub open spec fn takes_mutably(ps: Seq<Param>) -> bool {
    exists|i: int| 0 <= i < ps.len() && (#[trigger] ps[i]).param_type is MutableReference
}

/// The functions that may get a proof.
pub open spec fn candidates_of(fs: Seq<(FunctionID, Func)>, w: WorldFunctions) -> Seq<FunctionID>
    decreases fs.len(),
{
    if fs.len() == 0 {
        Seq::empty()
    } else {
        let before = candidates_of(fs.drop_last(), w);
        if is_candidate(fs.last().1, w) {
            before.push(fs.last().0)
        } else {
            before
        }
    }
}

/// Whether one of the parameters is a mutable reference.
fn does_take_mutably(ps: &Vec<Parameter>) -> (r: bool)
    ensures
        r == takes_mutably(Parameter::views(ps@)),
{
    let ghost vs = Parameter::views(ps@);
    let mut i: usize = 0;
    while i < ps.len()
        invariant
            i <= ps.len(),
            vs == Parameter::views(ps@),
            forall|j: int| 0 <= j < i ==> !((#[trigger] vs[j]).param_type is MutableReference),
        decreases ps.len() - i,
    {
        assert(vs[i as int] == ps@[i as int]@);
        if let Type::MutableReference(_, _) = &ps[i].param_type {
            return true;
        }
        i += 1;
    }
    false
}

/// The functions that may get a proof.
fn find_candidates(program: &Program, w: &WorldFunctions, world: &Type) -> (r: Vec<FunctionID>)
    requires
        world@ == world_ty(*w),
    ensures
        r@ == candidates_of(program@.functions, *w),
{
    let ghost fs = program@.functions;
    let mut out: Vec<FunctionID> = Vec::new();
    let mut i: usize = 0;
    assert(fs.subrange(0, 0) =~= Seq::empty());
    while i < program.functions.len()
        invariant
            i <= program.functions.len(),
            world@ == world_ty(*w),
            fs == program@.functions,
            out@ == candidates_of(fs.subrange(0, i as int), *w),
        decreases program.functions.len() - i,
    {
        let ghost next = fs.subrange(0, i + 1);
        assert(next.drop_last() =~= fs.subrange(0, i as int));
        assert(next.last() == (program.functions@[i as int].0, program.functions@[i as int].1@));
        let f = &program.functions[i].1;
        assert(ProofParam::views(f.signature.proof_params@).len()
            == f.signature.proof_params@.len());
        if !f.is_native && f.theorem.is_none() && f.mutual_group_id.is_none()
            && f.signature.proof_params.len() == 0 && takes_world(&f.signature.parameters)
            && !does_take_mutably(&f.signature.parameters) && world_proj(
            &f.signature.return_type,
            world,
        ).is_some() {
            out.push(program.functions[i].0);
        }
        i += 1;
    }
    assert(fs.subrange(0, i as int) =~= fs);
    out
}

/// Each function that may get a proof is a function of the program.
proof fn lemma_candidates(fs: Seq<(FunctionID, Func)>, w: WorldFunctions, i: int)
    requires
        0 <= i < candidates_of(fs, w).len(),
    ensures
        crate::program::slot(fs, candidates_of(fs, w)[i]) is Some,
    decreases fs.len(),
{
    if fs.len() > 0 {
        let before = candidates_of(fs.drop_last(), w);
        let id = candidates_of(fs, w)[i];
        if i < before.len() {
            lemma_candidates(fs.drop_last(), w, i);
            let k = crate::program::slot(fs.drop_last(), id)->0;
            assert(crate::program::is_slot(fs.drop_last(), id, k));
            assert(fs[k] == fs.drop_last()[k]);
            crate::program::lemma_slot_exists(fs, id, k);
        } else {
            crate::program::lemma_slot_exists(fs, id, fs.len() - 1);
        }
    }
}

/// The search as it goes on: the program with the records so far, the functions
/// that have one, those that get none, and why not.
#[verifier::ext_equal]
pub struct Round {
    pub p: Prog,
    pub done: Seq<FunctionID>,
    pub dropped: Seq<FunctionID>,
    pub why: Seq<NoFrame>,
}

/// Whether it is known of a function whether it gets a record.
pub open spec fn is_known(r: Round, id: FunctionID) -> bool {
    r.done.contains(id) || r.dropped.contains(id)
}

/// The search after a look at one function.
pub open spec fn looked(r: Round, w: WorldFunctions, ids: Seq<FunctionID>, id: FunctionID) -> Round {
    if is_known(r, id) {
        r
    } else {
        match framed(
            Search { p: r.p, world: w, candidates: ids, done: r.done, dropped: r.dropped },
            id,
        ) {
            Finding::Made(s) => Round {
                p: Prog { frame_lemmas: r.p.frame_lemmas.push(s), ..r.p },
                done: r.done.push(id),
                ..r
            },
            Finding::Pending => r,
            Finding::Dropped(y) => Round {
                dropped: r.dropped.push(id),
                why: r.why.push(y),
                ..r
            },
        }
    }
}

/// The search after a look at the first `k` functions.
pub open spec fn rounded(r: Round, w: WorldFunctions, ids: Seq<FunctionID>, k: nat) -> Round
    decreases k,
{
    if k == 0 || k > ids.len() {
        r
    } else {
        looked(rounded(r, w, ids, (k - 1) as nat), w, ids, ids[k - 1])
    }
}

/// The number of the first `k` functions of which it is not known whether they get
/// a record.
pub open spec fn unknown(r: Round, ids: Seq<FunctionID>, k: nat) -> nat
    decreases k,
{
    if k == 0 || k > ids.len() {
        0
    } else {
        unknown(r, ids, (k - 1) as nat) + if is_known(r, ids[k - 1]) {
            0nat
        } else {
            1nat
        }
    }
}

/// The search once a round brings nothing new.
pub open spec fn frames_settled(r: Round, w: WorldFunctions, ids: Seq<FunctionID>) -> Round
    decreases unknown(r, ids, ids.len()),
{
    let s = rounded(r, w, ids, ids.len());
    if unknown(s, ids, ids.len()) < unknown(r, ids, ids.len()) {
        frames_settled(s, w, ids)
    } else {
        s
    }
}

/// What is known stays known.
pub open spec fn extends(r: Round, s: Round) -> bool {
    forall|id: FunctionID| #[trigger] is_known(r, id) ==> is_known(s, id)
}

/// A look keeps what is known, and makes the function known unless it changes
/// nothing.
proof fn lemma_looked(r: Round, w: WorldFunctions, ids: Seq<FunctionID>, id: FunctionID)
    ensures
        extends(r, looked(r, w, ids, id)),
        looked(r, w, ids, id) == r || (!is_known(r, id) && is_known(looked(r, w, ids, id), id)),
{
    let s = looked(r, w, ids, id);
    assert forall|x: FunctionID| #[trigger] is_known(r, x) implies is_known(s, x) by {
        if r.done.contains(x) {
            let i = choose|i: int| 0 <= i < r.done.len() && r.done[i] == x;
            assert(s.done[i] == x);
        } else {
            let i = choose|i: int| 0 <= i < r.dropped.len() && r.dropped[i] == x;
            assert(s.dropped[i] == x);
        }
    }
    if s != r {
        if s.done.len() > r.done.len() {
            assert(s.done[r.done.len() as int] == id);
        } else {
            assert(s.dropped[r.dropped.len() as int] == id);
        }
    }
}

/// The more is known, the fewer are unknown.
proof fn lemma_unknown(r: Round, s: Round, ids: Seq<FunctionID>, k: nat)
    requires
        extends(r, s),
        k <= ids.len(),
    ensures
        unknown(s, ids, k) <= unknown(r, ids, k),
        forall|j: int|
            0 <= j < k && !is_known(r, #[trigger] ids[j]) && is_known(s, ids[j]) ==> unknown(
                s,
                ids,
                k,
            ) < unknown(r, ids, k),
    decreases k,
{
    if k > 0 {
        lemma_unknown(r, s, ids, (k - 1) as nat);
        assert(is_known(r, ids[k - 1]) ==> is_known(s, ids[k - 1]));
    }
}

/// A round keeps what is known, and makes something known unless it changes
/// nothing.
proof fn lemma_rounded(r: Round, w: WorldFunctions, ids: Seq<FunctionID>, k: nat)
    requires
        k <= ids.len(),
    ensures
        extends(r, rounded(r, w, ids, k)),
        rounded(r, w, ids, k) == r || unknown(rounded(r, w, ids, k), ids, ids.len()) < unknown(
            r,
            ids,
            ids.len(),
        ),
    decreases k,
{
    if k > 0 {
        lemma_rounded(r, w, ids, (k - 1) as nat);
        let mid = rounded(r, w, ids, (k - 1) as nat);
        let s = looked(mid, w, ids, ids[k - 1]);
        lemma_looked(mid, w, ids, ids[k - 1]);
        assert(extends(r, s)) by {
            assert forall|x: FunctionID| #[trigger] is_known(r, x) implies is_known(s, x) by {
                assert(is_known(mid, x));
            }
        }
        lemma_unknown(mid, s, ids, ids.len());
        if s != mid {
            assert(!is_known(mid, ids[k - 1]) && is_known(s, ids[k - 1]));
        }
    }
}

/// The search from the start.
pub open spec fn search_start(p: Prog) -> Round {
    Round { p, done: Seq::empty(), dropped: Seq::empty(), why: Seq::empty() }
}

/// The program with the records of its functions.
pub open spec fn with_frame_lemmas(p: Prog) -> Prog {
    match p.world_functions {
        Some(w) => frames_settled(search_start(p), w, candidates_of(p.functions, w)).p,
        None => p,
    }
}

/// Looks at one function; says whether something became known.
fn look(
    program: &mut Program,
    w: &WorldFunctions,
    ids: &Vec<FunctionID>,
    done: &mut Vec<FunctionID>,
    dropped: &mut Vec<FunctionID>,
    why: &mut Vec<NoFrame>,
    id: FunctionID,
) -> (r: bool)
    requires
        old(program)@.has(id),
        old(why)@.len() == old(dropped)@.len(),
    ensures
        final(why)@.len() == final(dropped)@.len(),
        (Round { p: final(program)@, done: final(done)@, dropped: final(dropped)@, why: final(why)@ }) == looked(
            Round { p: old(program)@, done: old(done)@, dropped: old(dropped)@, why: old(why)@ },
            *w,
            ids@,
            id,
        ),
        final(program)@.functions == old(program)@.functions,
        !r ==> (Round { p: final(program)@, done: final(done)@, dropped: final(dropped)@, why: final(why)@ })
            == (Round { p: old(program)@, done: old(done)@, dropped: old(dropped)@, why: old(why)@ }),
        r ==> !is_known(
            Round { p: old(program)@, done: old(done)@, dropped: old(dropped)@, why: old(why)@ },
            id,
        ) && is_known(
            Round { p: final(program)@, done: final(done)@, dropped: final(dropped)@, why: final(why)@ },
            id,
        ),
{
    if contains_id(done, id) || contains_id(dropped, id) {
        return false;
    }
    let world_type = Type::Struct { struct_id: w.world_struct, type_args: Vec::new() };
    assert(Type::views(world_type->Struct_type_args@) =~= Seq::empty());
    let c = WalkCtx { program, world: *w, world_type, candidates: ids, done, dropped };
    let found = c.analyze_fn(id);
    let ghost before = program@;
    let ghost was_done = done@;
    let ghost was_dropped = dropped@;
    match found {
        FindingOf::Made(s) => {
            program.frame_lemmas.push(s);
            assert(program@.frame_lemmas =~= before.frame_lemmas.push(s@));
            assert(program@ =~= (Prog { frame_lemmas: before.frame_lemmas.push(s@), ..before }));
            done.push(id);
            assert(done@[was_done.len() as int] == id);
            true
        },
        FindingOf::Pending => false,
        FindingOf::Dropped(y) => {
            dropped.push(id);
            why.push(y);
            assert(dropped@[was_dropped.len() as int] == id);
            true
        },
    }
}

/// The functions among the first `k` of a list of which it is not known whether they
/// get a record: each waits for another.
pub open spec fn still_waiting(r: Round, ids: Seq<FunctionID>, k: nat) -> Seq<
    (FunctionID, NoFrame),
>
    decreases k,
{
    if k == 0 || k > ids.len() {
        Seq::empty()
    } else {
        let before = still_waiting(r, ids, (k - 1) as nat);
        if is_known(r, ids[k - 1]) {
            before
        } else {
            before.push((ids[k - 1], NoFrame::Waiting))
        }
    }
}

/// The functions that get no record, with the reasons: those that were given up, in
/// that order, then those that wait for each other.
pub open spec fn without_record(r: Round, ids: Seq<FunctionID>) -> Seq<(FunctionID, NoFrame)> {
    Seq::new(r.dropped.len(), |i: int| (r.dropped[i], r.why[i])) + still_waiting(
        r,
        ids,
        ids.len(),
    )
}

/// The functions of a program that take the world and return it but get no record, with
/// the reasons.
pub open spec fn frames_missing(p: Prog) -> Seq<(FunctionID, NoFrame)> {
    match p.world_functions {
        Some(w) => {
            let ids = candidates_of(p.functions, w);
            without_record(frames_settled(search_start(p), w, ids), ids)
        },
        None => Seq::empty(),
    }
}

/// Finds, for each function that takes the world and returns it, which dynamic
/// fields it may change, with a proof that it changes no others. A function is
/// looked at again until those it calls are known; one whose body has no such proof
/// gets none.
pub fn compute_frame_lemmas(program: &mut Program)
    ensures
        final(program)@ == with_frame_lemmas(old(program)@),
{
    let _ = find_frame_lemmas(program);
}

/// Finds what each function that takes the world and returns it may change, as
/// [`compute_frame_lemmas`] does, and returns the functions that get no proof, with the
/// reasons.
pub fn find_frame_lemmas(program: &mut Program) -> (r: Vec<(FunctionID, NoFrame)>)
    ensures
        final(program)@ == with_frame_lemmas(old(program)@),
        r@ == frames_missing(old(program)@),
{
    let w = match program.world_functions {
        Some(w) => w,
        None => {
            return Vec::new();
        },
    };
    let ghost start = program@;
    let world_type = Type::Struct { struct_id: w.world_struct, type_args: Vec::new() };
    assert(Type::views(world_type->Struct_type_args@) =~= Seq::empty());
    let ids = find_candidates(program, &w, &world_type);
    let n = ids.len();
    let mut done: Vec<FunctionID> = Vec::new();
    let mut dropped: Vec<FunctionID> = Vec::new();
    let mut why: Vec<NoFrame> = Vec::new();
    let ghost goal = frames_settled(search_start(start), w, ids@);
    let ghost mut cur = search_start(start);
    assert(cur =~= (Round { p: program@, done: done@, dropped: dropped@, why: why@ }));
    proof {
        assert forall|i: int| 0 <= i < ids@.len() implies start.has(#[trigger] ids@[i]) by {
            lemma_candidates(start.functions, w, i);
        }
    }
    let mut more = true;
    while more
        invariant
            n == ids@.len(),
            why@.len() == dropped@.len(),
            program@.functions == start.functions,
            forall|i: int| 0 <= i < ids@.len() ==> start.has(#[trigger] ids@[i]),
            cur == (Round { p: program@, done: done@, dropped: dropped@, why: why@ }),
            more ==> frames_settled(cur, w, ids@) == goal,
            !more ==> cur == goal,
        decreases
            if more {
                1nat
            } else {
                0nat
            },
            unknown(cur, ids@, ids@.len()),
    {
        let ghost before = cur;
        more = false;
        let mut i: usize = 0;
        while i < n
            invariant
                i <= n,
                n == ids@.len(),
                why@.len() == dropped@.len(),
                program@.functions == start.functions,
                forall|i: int| 0 <= i < ids@.len() ==> start.has(#[trigger] ids@[i]),
                (Round { p: program@, done: done@, dropped: dropped@, why: why@ }) == rounded(
                    before,
                    w,
                    ids@,
                    i as nat,
                ),
                !more ==> rounded(before, w, ids@, i as nat) == before,
                more ==> unknown(rounded(before, w, ids@, i as nat), ids@, ids@.len()) < unknown(
                    before,
                    ids@,
                    ids@.len(),
                ),
            decreases n - i,
        {
            let ghost mid = Round { p: program@, done: done@, dropped: dropped@, why: why@ };
            assert(start.has(ids@[i as int]));
            assert(program@.has(ids@[i as int]));
            let new = look(program, &w, &ids, &mut done, &mut dropped, &mut why, ids[i]);
            let ghost s = Round { p: program@, done: done@, dropped: dropped@, why: why@ };
            proof {
                lemma_looked(mid, w, ids@, ids@[i as int]);
                lemma_unknown(mid, s, ids@, ids@.len());
                if new {
                    assert(!is_known(mid, ids@[i as int]) && is_known(s, ids@[i as int]));
                }
            }
            if new {
                more = true;
            }
            i += 1;
        }
        proof {
            cur = rounded(before, w, ids@, ids@.len());
        }
    }
    list_missing(&done, &dropped, &why, &ids, Ghost(cur))
}

/// The functions that get no record, with the reasons.
fn list_missing(
    done: &Vec<FunctionID>,
    dropped: &Vec<FunctionID>,
    why: &Vec<NoFrame>,
    ids: &Vec<FunctionID>,
    Ghost(r): Ghost<Round>,
) -> (out: Vec<(FunctionID, NoFrame)>)
    requires
        r.done == done@,
        r.dropped == dropped@,
        r.why == why@,
        why@.len() == dropped@.len(),
    ensures
        out@ == without_record(r, ids@),
{
    let ghost given_up = Seq::new(r.dropped.len(), |i: int| (r.dropped[i], r.why[i]));
    let mut out: Vec<(FunctionID, NoFrame)> = Vec::new();
    let mut i: usize = 0;
    while i < dropped.len()
        invariant
            i <= dropped.len(),
            r.dropped == dropped@,
            r.why == why@,
            why@.len() == dropped@.len(),
            given_up == Seq::new(r.dropped.len(), |i: int| (r.dropped[i], r.why[i])),
            out@ == given_up.subrange(0, i as int),
        decreases dropped.len() - i,
    {
        out.push((dropped[i], why[i]));
        i += 1;
        assert(out@ =~= given_up.subrange(0, i as int));
    }
    assert(out@ =~= given_up);
    let mut k: usize = 0;
    assert(out@ =~= given_up + still_waiting(r, ids@, 0));
    while k < ids.len()
        invariant
            k <= ids.len(),
            r.done == done@,
            r.dropped == dropped@,
            out@ == given_up + still_waiting(r, ids@, k as nat),
        decreases ids.len() - k,
    {
        let ghost before = out@;
        if !contains_id(done, ids[k]) && !contains_id(dropped, ids[k]) {
            out.push((ids[k], NoFrame::Waiting));
        }
        k += 1;
        assert(out@ =~= given_up + still_waiting(r, ids@, k as nat));
    }
    out
}


impl Frame {
    /// Whether the proof uses only those of the given functions.
    pub open spec fn rests_on(self, ids: Seq<FunctionID>) -> bool
        decreases self,
    {
        match self {
            Frame::Callee { function, .. } => ids.contains(function),
            Frame::Comp(a, b) => a.rests_on(ids) && b.rests_on(ids),
            Frame::ItePair(a, b) => a.rests_on(ids) && b.rests_on(ids),
            Frame::BiteWorld(a, b) => a.rests_on(ids) && b.rests_on(ids),
            _ => true,
        }
    }
}

/// Whether the proof so far uses only those of the given functions.
pub open spec fn acc_rests_on(acc: Option<Frame>, ids: Seq<FunctionID>) -> bool {
    match acc {
        Some(f) => f.rests_on(ids),
        None => true,
    }
}

/// Whether a proof that was made uses only those of the given functions.
pub open spec fn step_rests_on(step: Step, ids: Seq<FunctionID>) -> bool {
    match step {
        Step::Made(f) => f.rests_on(ids),
        _ => true,
    }
}

/// The proofs for calls use only proofs that are there.
proof fn lemma_calls_rest(
    c: Search,
    f: FunctionID,
    types: Seq<Ty>,
    args: Seq<Node>,
    s: Subst,
    snd: bool,
)
    ensures
        step_rests_on(callee_step(c, f, types, args, s), c.done),
        step_rests_on(bound_call(c, f, types, args, s), c.done),
        step_rests_on(tail_call(c, f, types, args, s, snd), c.done),
{
    assert(step_rests_on(callee_step(c, f, types, args, s), c.done));
    assert(step_rests_on(df_step(c.world, f, types, args, s), c.done));
    match preserving(c.world, f) {
        Some(op) => {
            assert(step_rests_on(preserve_step(op, types), c.done));
        },
        None => {},
    }
}

/// The proof of two branches uses what theirs use.
proof fn lemma_both_rests(t: Step, e: Step, pair: bool, ids: Seq<FunctionID>)
    requires
        step_rests_on(t, ids),
        step_rests_on(e, ids),
    ensures
        step_rests_on(both(t, e, pair), ids),
{
}

/// A proof behind another uses what the two use.
proof fn lemma_chained_rests(acc: Option<Frame>, step: Frame, ids: Seq<FunctionID>)
    requires
        acc_rests_on(acc, ids),
        step.rests_on(ids),
    ensures
        chained(acc, step).rests_on(ids),
{
}

/// The walk with one more step uses what it used and what the step uses.
proof fn lemma_stepped_rests(way: Way, step: Step, subst: Subst, ids: Seq<FunctionID>)
    requires
        acc_rests_on(way.acc, ids),
        step_rests_on(step, ids),
    ensures
        match stepped(way, step, subst) {
            Went::On(next) => acc_rests_on(next.acc, ids),
            _ => true,
        },
{
    match step {
        Step::Made(f) => {
            lemma_chained_rests(way.acc, f, ids);
        },
        _ => {},
    }
}

/// The proof behind a binding uses only proofs that are there.
#[verifier::rlimit(30)]
proof fn lemma_let_rests(c: Search, pattern: Seq<Name>, value: Node, way: Way)
    requires
        acc_rests_on(way.acc, c.done),
    ensures
        match let_framed(c, pattern, value, way) {
            Went::On(next) => acc_rests_on(next.acc, c.done),
            _ => true,
        },
    decreases value, 0nat,
{
    let v = crate::obligations::short_value(value, way.subst, false);
    let parts = parts_bound(way.subst, pattern, v, true, pattern.len());
    match value {
        Node::If { then_branch, else_branch, .. } => {
            let start = Way { subst: way.subst, acc: None };
            let t = tail_framed(c, *then_branch, start, true);
            let e = tail_framed(c, *else_branch, start, true);
            lemma_tail_rests(c, *then_branch, start, true);
            lemma_tail_rests(c, *else_branch, start, true);
            lemma_both_rests(t, e, true, c.done);
            lemma_stepped_rests(way, both(t, e, true), parts, c.done);
        },
        Node::Call { function, type_args, args } => {
            lemma_calls_rest(c, function, type_args, args, way.subst, true);
            lemma_stepped_rests(
                way,
                callee_step(c, function, type_args, args, way.subst),
                parts,
                c.done,
            );
            lemma_stepped_rests(
                way,
                bound_call(c, function, type_args, args, way.subst),
                crate::assoc::put(way.subst, world_var(), None),
                c.done,
            );
        },
        _ => {},
    }
}

/// The proof for an expression uses only proofs that are there.
#[verifier::rlimit(30)]
proof fn lemma_tail_rests(c: Search, n: Node, way: Way, snd: bool)
    requires
        acc_rests_on(way.acc, c.done),
    ensures
        step_rests_on(tail_framed(c, n, way, snd), c.done),
    decreases n, 1nat,
{
    match n {
        Node::Let { pattern, value, body } => {
            lemma_let_rests(c, pattern, *value, way);
            match let_framed(c, pattern, *value, way) {
                Went::On(next) => {
                    lemma_tail_rests(c, *body, next, snd);
                },
                _ => {},
            }
        },
        Node::If { then_branch, else_branch, .. } => {
            let start = Way { subst: way.subst, acc: None };
            let t = tail_framed(c, *then_branch, start, snd);
            let e = tail_framed(c, *else_branch, start, snd);
            lemma_tail_rests(c, *then_branch, start, snd);
            lemma_tail_rests(c, *else_branch, start, snd);
            lemma_both_rests(t, e, snd, c.done);
            match both(t, e, snd) {
                Step::Made(f) => {
                    lemma_chained_rests(way.acc, f, c.done);
                },
                _ => {},
            }
        },
        Node::Call { function, type_args, args } => {
            lemma_calls_rest(c, function, type_args, args, way.subst, snd);
            match tail_call(c, function, type_args, args, way.subst, snd) {
                Step::Made(f) => {
                    lemma_chained_rests(way.acc, f, c.done);
                },
                _ => {},
            }
        },
        _ => {},
    }
}

/// The functions that the records are about.
pub open spec fn ids_of(sets: Seq<FrameSet>) -> Seq<FunctionID> {
    Seq::new(sets.len(), |i: int| sets[i].fn_id)
}

/// Whether each record uses only the proofs of records before it.
pub open spec fn in_proof_order(sets: Seq<FrameSet>) -> bool {
    forall|i: int|
        0 <= i < sets.len() ==> (#[trigger] sets[i]).proof.rests_on(ids_of(sets.subrange(0, i)))
}

/// A look keeps the records in order.
proof fn lemma_looked_in_order(r: Round, w: WorldFunctions, ids: Seq<FunctionID>, id: FunctionID)
    requires
        in_proof_order(r.p.frame_lemmas),
        r.done == ids_of(r.p.frame_lemmas),
    ensures
        in_proof_order(looked(r, w, ids, id).p.frame_lemmas),
        looked(r, w, ids, id).done == ids_of(looked(r, w, ids, id).p.frame_lemmas),
{
    let c = Search { p: r.p, world: w, candidates: ids, done: r.done, dropped: r.dropped };
    let s = looked(r, w, ids, id);
    if s != r && s.dropped == r.dropped {
        let f = r.p.func(id);
        let snd = world_place(f.signature.return_type, world_ty(w))->0;
        lemma_tail_rests(c, f.body, Way { subst: Seq::empty(), acc: None }, snd);
        let old_sets = r.p.frame_lemmas;
        let sets = s.p.frame_lemmas;
        assert(ids_of(sets) =~= s.done);
        assert forall|i: int| 0 <= i < sets.len() implies (#[trigger] sets[i]).proof.rests_on(
            ids_of(sets.subrange(0, i)),
        ) by {
            assert(sets.subrange(0, i) =~= old_sets.subrange(0, i));
            if i < old_sets.len() {
                assert(old_sets[i] == sets[i]);
            } else {
                assert(old_sets.subrange(0, i) =~= old_sets);
            }
        }
    }
}

/// A round keeps the records in order.
proof fn lemma_rounded_in_order(r: Round, w: WorldFunctions, ids: Seq<FunctionID>, k: nat)
    requires
        in_proof_order(r.p.frame_lemmas),
        r.done == ids_of(r.p.frame_lemmas),
    ensures
        in_proof_order(rounded(r, w, ids, k).p.frame_lemmas),
        rounded(r, w, ids, k).done == ids_of(rounded(r, w, ids, k).p.frame_lemmas),
    decreases k,
{
    if k > 0 && k <= ids.len() {
        lemma_rounded_in_order(r, w, ids, (k - 1) as nat);
        lemma_looked_in_order(rounded(r, w, ids, (k - 1) as nat), w, ids, ids[k - 1]);
    }
}

/// The search keeps the records in order, and ends where a round brings nothing
/// new.
proof fn lemma_settled_in_order(r: Round, w: WorldFunctions, ids: Seq<FunctionID>)
    requires
        in_proof_order(r.p.frame_lemmas),
        r.done == ids_of(r.p.frame_lemmas),
    ensures
        in_proof_order(frames_settled(r, w, ids).p.frame_lemmas),
        rounded(frames_settled(r, w, ids), w, ids, ids.len()) == frames_settled(r, w, ids),
    decreases unknown(r, ids, ids.len()),
{
    let s = rounded(r, w, ids, ids.len());
    lemma_rounded(r, w, ids, ids.len());
    lemma_rounded_in_order(r, w, ids, ids.len());
    if unknown(s, ids, ids.len()) < unknown(r, ids, ids.len()) {
        lemma_settled_in_order(s, w, ids);
    }
}

/// Each record that is found uses only the proofs of records before it, and no
/// further look at the functions brings another.
pub proof fn law_callees_come_first(p: Prog, w: WorldFunctions)
    requires
        p.world_functions == Some(w),
        p.frame_lemmas.len() == 0,
    ensures
        in_proof_order(with_frame_lemmas(p).frame_lemmas),
        ({
            let ids = candidates_of(p.functions, w);
            let end = frames_settled(search_start(p), w, ids);
            rounded(end, w, ids, ids.len()) == end
        }),
{
    assert(ids_of(p.frame_lemmas) =~= Seq::empty());
    lemma_settled_in_order(search_start(p), w, candidates_of(p.functions, w));
}

/// Whether none of the parameters is the world.
pub open spec fn leaves_out_world(ps: Seq<Param>) -> bool {
    forall|i: int| 0 <= i < ps.len() ==> (#[trigger] ps[i]).name != world_var()
}

/// The parameters that a footprint mentions are some of the parameters, in order, and
/// not the world.
proof fn lemma_mentioned_is_part(ps: Seq<Param>, f: Frame, p: Prog)
    ensures
        mentioned_params(ps, f, p) matches Some(qs) ==> crate::program::is_part(qs, ps)
            && leaves_out_world(qs),
    decreases ps.len(),
{
    if ps.len() > 0 {
        lemma_mentioned_is_part(ps.drop_last(), f, p);
        if let Some(before) = mentioned_params(ps.drop_last(), f, p) {
            let all = before.push(ps.last());
            assert(all.drop_last() =~= before);
            if ps.last().name != world_var() {
                assert forall|i: int| 0 <= i < all.len() implies (#[trigger] all[i]).name
                    != world_var() by {
                    if i < before.len() {
                        assert(all[i] == before[i]);
                    }
                }
            }
        }
    }
}

/// Whether a record is of a function other than those before it, with parameters of
/// that function other than the world, in order.
pub open spec fn is_own_record(sets: Seq<FrameSet>, i: int, p: Prog) -> bool {
    &&& forall|j: int| 0 <= j < i ==> (#[trigger] sets[j]).fn_id != sets[i].fn_id
    &&& crate::program::is_part(sets[i].footprint_params, p.func(sets[i].fn_id).signature.parameters)
    &&& leaves_out_world(sets[i].footprint_params)
}

/// Whether the records of a search are of different functions, each over parameters of
/// its function, and each function that gets none has a reason.
pub open spec fn is_tidy(r: Round, p: Prog) -> bool {
    &&& r.p == (Prog { frame_lemmas: r.p.frame_lemmas, ..p })
    &&& r.done == ids_of(r.p.frame_lemmas)
    &&& r.why.len() == r.dropped.len()
    &&& forall|i: int|
        0 <= i < r.p.frame_lemmas.len() ==> #[trigger] is_own_record(r.p.frame_lemmas, i, p)
}

/// A look keeps the records tidy.
proof fn lemma_looked_tidy(
    r: Round,
    w: WorldFunctions,
    ids: Seq<FunctionID>,
    id: FunctionID,
    p: Prog,
)
    requires
        is_tidy(r, p),
    ensures
        is_tidy(looked(r, w, ids, id), p),
{
    let s = looked(r, w, ids, id);
    if s != r && s.dropped == r.dropped {
        let f = r.p.func(id);
        let snd = world_place(f.signature.return_type, world_ty(w))->0;
        let c = Search { p: r.p, world: w, candidates: ids, done: r.done, dropped: r.dropped };
        let step = tail_framed(c, f.body, Way { subst: Seq::empty(), acc: None }, snd);
        let olds = r.p.frame_lemmas;
        let sets = s.p.frame_lemmas;
        lemma_mentioned_is_part(f.signature.parameters, step->Made_0, r.p);
        assert(ids_of(sets) =~= s.done);
        assert forall|i: int| 0 <= i < sets.len() implies #[trigger] is_own_record(
            sets,
            i,
            p,
        ) by {
            if i < olds.len() {
                assert(is_own_record(olds, i, p));
                assert forall|j: int| 0 <= j < i implies (#[trigger] sets[j]).fn_id
                    != sets[i].fn_id by {
                    assert(sets[j] == olds[j]);
                }
            } else {
                assert forall|j: int| 0 <= j < i implies (#[trigger] sets[j]).fn_id
                    != sets[i].fn_id by {
                    assert(sets[j] == olds[j]);
                    assert(r.done[j] == olds[j].fn_id);
                    assert(r.done.contains(r.done[j]));
                }
            }
        }
    }
}

/// A round keeps the records tidy.
proof fn lemma_rounded_tidy(r: Round, w: WorldFunctions, ids: Seq<FunctionID>, k: nat, p: Prog)
    requires
        is_tidy(r, p),
    ensures
        is_tidy(rounded(r, w, ids, k), p),
    decreases k,
{
    if k > 0 && k <= ids.len() {
        lemma_rounded_tidy(r, w, ids, (k - 1) as nat, p);
        lemma_looked_tidy(rounded(r, w, ids, (k - 1) as nat), w, ids, ids[k - 1], p);
    }
}

/// The search keeps the records tidy.
proof fn lemma_settled_tidy(r: Round, w: WorldFunctions, ids: Seq<FunctionID>, p: Prog)
    requires
        is_tidy(r, p),
    ensures
        is_tidy(frames_settled(r, w, ids), p),
    decreases unknown(r, ids, ids.len()),
{
    let s = rounded(r, w, ids, ids.len());
    lemma_rounded_tidy(r, w, ids, ids.len(), p);
    if unknown(s, ids, ids.len()) < unknown(r, ids, ids.len()) {
        lemma_settled_tidy(s, w, ids, p);
    }
}

/// No two records are of the same function, and each mentions parameters of its
/// function, in their order, and never the world. Where the world has no operations,
/// nothing changes.
pub proof fn law_one_record_each(p: Prog)
    requires
        p.frame_lemmas.len() == 0,
    ensures
        ({
            let sets = with_frame_lemmas(p).frame_lemmas;
            forall|i: int| 0 <= i < sets.len() ==> #[trigger] is_own_record(sets, i, p)
        }),
        with_frame_lemmas(p) == (Prog { frame_lemmas: with_frame_lemmas(p).frame_lemmas, ..p }),
        p.world_functions is None ==> with_frame_lemmas(p) == p,
{
    if let Some(w) = p.world_functions {
        assert(ids_of(p.frame_lemmas) =~= Seq::empty());
        lemma_settled_tidy(search_start(p), w, candidates_of(p.functions, w), p);
    }
}

/// A function that is not known waits.
proof fn lemma_waits(r: Round, ids: Seq<FunctionID>, k: nat, i: int)
    requires
        0 <= i < k <= ids.len(),
        !is_known(r, ids[i]),
    ensures
        still_waiting(r, ids, k).contains((ids[i], NoFrame::Waiting)),
    decreases k,
{
    let all = still_waiting(r, ids, k);
    if i < k - 1 {
        let before = still_waiting(r, ids, (k - 1) as nat);
        lemma_waits(r, ids, (k - 1) as nat, i);
        let j = choose|j: int|
            0 <= j < before.len() && before[j] == (ids[i], NoFrame::Waiting);
        assert(all[j] == before[j]);
    } else {
        assert(all.last() == (ids[i], NoFrame::Waiting));
    }
}

/// Each function that takes the world and returns it gets a record, or is listed with
/// the reason why it gets none.
pub proof fn law_every_function_is_answered(p: Prog, w: WorldFunctions, i: int)
    requires
        p.world_functions == Some(w),
        p.frame_lemmas.len() == 0,
        0 <= i < candidates_of(p.functions, w).len(),
    ensures
        ({
            let id = candidates_of(p.functions, w)[i];
            ids_of(with_frame_lemmas(p).frame_lemmas).contains(id) || exists|y: NoFrame|
                #[trigger] frames_missing(p).contains((id, y))
        }),
{
    let ids = candidates_of(p.functions, w);
    let id = ids[i];
    let r = frames_settled(search_start(p), w, ids);
    assert(ids_of(p.frame_lemmas) =~= Seq::empty());
    lemma_settled_tidy(search_start(p), w, ids, p);
    let given_up = Seq::new(r.dropped.len(), |k: int| (r.dropped[k], r.why[k]));
    let waiting = still_waiting(r, ids, ids.len());
    let all = frames_missing(p);
    if r.done.contains(id) {
    } else if r.dropped.contains(id) {
        let k = choose|k: int| 0 <= k < r.dropped.len() && r.dropped[k] == id;
        assert(all[k] == (id, r.why[k]));
        assert(all.contains((id, r.why[k])));
    } else {
        lemma_waits(r, ids, ids.len(), i);
        let k = choose|k: int| 0 <= k < waiting.len() && waiting[k] == (id, NoFrame::Waiting);
        assert(all[given_up.len() + k] == (id, NoFrame::Waiting));
        assert(all.contains((id, NoFrame::Waiting)));
    }
}

} // verus!
