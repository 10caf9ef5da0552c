//! Threading ghost variables through the functions that use them.
//!
//! A function that threads a marker takes the marker's value as one more
//! parameter, and one that computes a value returns it as well. Calls of such
//! functions hand the values on, and the ghost operations become variables.

use crate::early_return::is_empty_tuple;
use crate::ir::{clone_names, IRNode, Node};
use crate::markers::{find_threaded, has_marker, GhostOpFids, Markers, Ops, Threaded};
use crate::parts::{is_control, map_within, Leaves, Within};
use crate::phi_lifting::push_vars;
use crate::program::{slot_of, Func, Function, Param, Parameter, Prog, Program, Signature};
use crate::text::{append, has_text, is_text};
use crate::traverse::{contains_id, Rewrite};
use crate::types::{clone_types, FunctionID, Name, TempId, Ty, Type};
use vstd::prelude::*;

verus! {

/// The name of the variable that carries a marker's value.
pub open spec fn ghost_name(p: Prog, k: Ty) -> Name {
    "__ghost_"@ + crate::markers::marker_key(p, k).0
}

/// The names of the variables that carry the values of the markers.
pub open spec fn ghost_names(p: Prog, ms: Markers) -> Seq<Name> {
    Seq::new(ms.len(), |i: int| ghost_name(p, ms[i].0))
}

/// The types of the markers' values.
pub open spec fn ghost_types(ms: Markers) -> Seq<Ty> {
    Seq::new(ms.len(), |i: int| ms[i].1)
}

/// Whether a function computes a value: it is no companion that states something
/// of another, and returns no proposition.
pub open spec fn computes_value(name: Name, return_type: Ty) -> bool {
    !(crate::text::occurs(name, ".aborts"@) || crate::text::occurs(name, ".requires"@)
        || crate::text::occurs(name, ".ensures"@) || return_type == Ty::Prop)
}

/// What calls have to know of a function that threads markers.
#[verifier::ext_equal]
pub struct Face {
    pub value_face: bool,
    pub returns_unit: bool,
    pub ghosts: Seq<Name>,
}

/// The executable [`Face`].
pub struct CalleeInfo {
    pub value_face: bool,
    pub returns_unit: bool,
    pub ghosts: Vec<TempId>,
}

impl CalleeInfo {
    /// What the record holds.
    pub open spec fn view(&self) -> Face {
        Face {
            value_face: self.value_face,
            returns_unit: self.returns_unit,
            ghosts: crate::ir::names(self.ghosts@),
        }
    }
}

/// What an optional record holds.
pub open spec fn optional_face(c: Option<CalleeInfo>) -> Option<Face> {
    match c {
        Some(x) => Some(x@),
        None => None,
    }
}

/// What a list of records holds.
pub open spec fn face_views(s: Seq<(FunctionID, Option<CalleeInfo>)>) -> Seq<
    (FunctionID, Option<Face>),
> {
    Seq::new(s.len(), |i: int| (s[i].0, optional_face(s[i].1)))
}

/// What calls have to know of the functions.
pub open spec fn faces(p: Prog, g: Threaded) -> Seq<(FunctionID, Option<Face>)> {
    Seq::new(
        p.functions.len(),
        |i: int| (p.functions[i].0, face(p, p.functions[i].1, g[i])),
    )
}

/// What calls have to know of a function.
pub open spec fn face(p: Prog, f: Func, e: Option<Markers>) -> Option<Face> {
    match e {
        Some(ms) => Some(
            Face {
                value_face: computes_value(f.name, f.signature.return_type),
                returns_unit: f.signature.return_type == Ty::unit(),
                ghosts: ghost_names(p, ms),
            },
        ),
        None => None,
    }
}

/// What a call of the function has to know.
pub open spec fn face_of(fs: Seq<(FunctionID, Option<Face>)>, id: FunctionID) -> Option<Face> {
    match crate::program::lookup(fs, id) {
        Some(f) => f,
        None => None,
    }
}

/// What a call of the function has to know.
fn find_face(fs: &Vec<(FunctionID, Option<CalleeInfo>)>, id: FunctionID) -> (r: Option<
    &CalleeInfo,
>)
    ensures
        match r {
            Some(c) => face_of(face_views(fs@), id) == Some(c@),
            None => face_of(face_views(fs@), id) is None,
        },
{
    proof {
        crate::program::lemma_same_slots(fs@, face_views(fs@), id);
    }
    match slot_of(fs, id) {
        Some(i) => {
            assert(face_views(fs@)[i as int].1 == optional_face(fs@[i as int].1));
            match &fs[i].1 {
                Some(c) => Some(c),
                None => None,
            }
        },
        None => None,
    }
}

/// Whether the last arguments are the variables already.
pub open spec fn has_ghosts(args: Seq<Node>, ghosts: Seq<Name>) -> bool {
    ghosts.len() > 0 && args.len() >= ghosts.len() && args.subrange(
        args.len() - ghosts.len(),
        args.len() as int,
    ) == crate::phi_lifting::var_nodes(ghosts)
}

/// Whether the last arguments are the variables already.
fn args_already_threaded(args: &Vec<IRNode>, ghosts: &Vec<TempId>) -> (r: bool)
    ensures
        r == has_ghosts(IRNode::views(args@), crate::ir::names(ghosts@)),
{
    let ghost xs = IRNode::views(args@);
    let ghost gs = crate::ir::names(ghosts@);
    assert(xs.len() == args@.len());
    assert(gs.len() == ghosts@.len());
    if ghosts.len() == 0 || args.len() < ghosts.len() {
        return false;
    }
    let from: usize = args.len() - ghosts.len();
    let ghost last = xs.subrange(from as int, xs.len() as int);
    let ghost want = crate::phi_lifting::var_nodes(gs);
    let mut i: usize = 0;
    while i < ghosts.len()
        invariant
            i <= ghosts.len(),
            from + ghosts.len() == args.len(),
            xs == IRNode::views(args@),
            xs.len() == args@.len(),
            gs == crate::ir::names(ghosts@),
            gs.len() == ghosts@.len(),
            last == xs.subrange(from as int, xs.len() as int),
            want == crate::phi_lifting::var_nodes(gs),
            forall|j: int| 0 <= j < i ==> #[trigger] last[j] == want[j],
        decreases ghosts.len() - i,
    {
        assert(last[i as int] == args@[from + i]@);
        assert(want[i as int] == Node::Var(ghosts@[i as int]@));
        let hit = match &args[from + i] {
            IRNode::Var(x) => *x == ghosts[i],
            _ => false,
        };
        if !hit {
            assert(last != want);
            return false;
        }
        i += 1;
    }
    assert(last =~= want);
    true
}

/// The variables that a call still has to be given.
pub open spec fn owed(args: Seq<Node>, f: Option<Face>) -> Seq<Node> {
    match f {
        Some(c) => if has_ghosts(args, c.ghosts) {
            Seq::empty()
        } else {
            crate::phi_lifting::var_nodes(c.ghosts)
        },
        None => Seq::empty(),
    }
}

/// A binding of a call that returns the values of markers as well.
pub open spec fn destructured(pattern: Seq<Name>, call: Node, body: Node, f: Face) -> Node {
    if f.returns_unit {
        Node::Let { pattern: f.ghosts, value: Box::new(call), body: Box::new(body) }
    } else if pattern.len() <= 1 {
        Node::Let {
            pattern: (if pattern.len() == 0 {
                seq!["_"@]
            } else {
                pattern
            }) + f.ghosts,
            value: Box::new(call),
            body: Box::new(body),
        }
    } else {
        Node::Let {
            pattern: seq!["__ghost_orig_ret"@] + f.ghosts,
            value: Box::new(call),
            body: Box::new(
                Node::Let {
                    pattern,
                    value: Box::new(Node::Var("__ghost_orig_ret"@)),
                    body: Box::new(body),
                },
            ),
        }
    }
}

/// The names, with others behind them.
pub fn join_names(first: Vec<TempId>, second: &Vec<TempId>) -> (r: Vec<TempId>)
    ensures
        crate::ir::names(r@) == crate::ir::names(first@) + crate::ir::names(second@),
{
    let ghost start = crate::ir::names(first@);
    let ghost more = crate::ir::names(second@);
    let mut out = first;
    let mut i: usize = 0;
    assert(start + more.subrange(0, 0) =~= start);
    while i < second.len()
        invariant
            i <= second.len(),
            more == crate::ir::names(second@),
            crate::ir::names(out@) == start + more.subrange(0, i as int),
        decreases second.len() - i,
    {
        let ghost before = crate::ir::names(out@);
        out.push(second[i].clone());
        assert(crate::ir::names(out@) =~= before.push(more[i as int]));
        assert(crate::ir::names(out@) =~= start + more.subrange(0, i + 1));
        i += 1;
    }
    assert(more.subrange(0, i as int) =~= more);
    out
}

/// The list of one name.
fn one_name(x: &str) -> (r: Vec<TempId>)
    ensures
        crate::ir::names(r@) == seq![x@],
{
    let mut out: Vec<TempId> = Vec::new();
    out.push(x.to_owned());
    assert(crate::ir::names(out@) =~= seq![x@]);
    out
}

/// Binds a call that returns the values of markers as well.
fn build_destructure(pattern: Vec<TempId>, call: IRNode, body: IRNode, c: &CalleeInfo) -> (r:
    IRNode)
    ensures
        r@ == destructured(crate::ir::names(pattern@), call@, body@, c@),
{
    assert(crate::ir::names(pattern@).len() == pattern@.len());
    if c.returns_unit {
        return IRNode::Let {
            pattern: clone_names(&c.ghosts),
            value: Box::new(call),
            body: Box::new(body),
        };
    }
    if pattern.len() <= 1 {
        let first = if pattern.len() == 0 {
            one_name("_")
        } else {
            pattern
        };
        return IRNode::Let {
            pattern: join_names(first, &c.ghosts),
            value: Box::new(call),
            body: Box::new(body),
        };
    }
    let own = IRNode::Var("__ghost_orig_ret".to_owned());
    assert(own@ == Node::Var("__ghost_orig_ret"@));
    let inner = IRNode::Let { pattern, value: Box::new(own), body: Box::new(body) };
    assert(inner@ == (Node::Let {
        pattern: crate::ir::names(pattern@),
        value: Box::new(Node::Var("__ghost_orig_ret"@)),
        body: Box::new(body@),
    }));
    IRNode::Let {
        pattern: join_names(one_name("__ghost_orig_ret"), &c.ghosts),
        value: Box::new(call),
        body: Box::new(inner),
    }
}

/// What a binding has to know of the call that it binds, where this is of a function
/// that computes a value and still has to be given the values of markers.
pub open spec fn bound_face(value: Node, fs: Seq<(FunctionID, Option<Face>)>) -> Option<Face> {
    match value {
        Node::Call { function, args, .. } => match face_of(fs, function) {
            Some(f) => if f.value_face && !has_ghosts(args, f.ghosts) {
                Some(f)
            } else {
                None
            },
            None => None,
        },
        _ => None,
    }
}

/// The expression whose calls are given the values of the markers that they
/// thread; a bound call of a function that computes a value returns them as well.
pub open spec fn sites_threaded(n: Node, fs: Seq<(FunctionID, Option<Face>)>) -> Node
    decreases n, 1nat,
{
    let ks = threaded_kids(n, fs);
    match n {
        Node::Let { pattern, value, .. } => {
            match bound_face(*value, fs) {
                Some(f) => destructured(pattern, ks[0], ks[1], f),
                None => n.with_kids(ks),
            }
        },
        Node::Call { function, type_args, args } => Node::Call {
            function,
            type_args,
            args: ks + owed(args, face_of(fs, function)),
        },
        _ => n.with_kids(ks),
    }
}

/// The direct subexpressions whose calls are given the values of markers.
pub open spec fn threaded_kids(n: Node, fs: Seq<(FunctionID, Option<Face>)>) -> Seq<Node>
    decreases n, 0nat,
{
    proof {
        n.lemma_kids_decrease();
    }
    Seq::new(
        n.kids().len(),
        |i: int|
            if 0 <= i < n.kids().len() {
                sites_threaded(n.kids()[i], fs)
            } else {
                arbitrary()
            },
    )
}

/// Gives calls the values of the markers that they thread.
fn thread_sites(node: &IRNode, fs: &Vec<(FunctionID, Option<CalleeInfo>)>) -> (r: IRNode)
    ensures
        r@ == sites_threaded(node@, face_views(fs@)),
    decreases node@, 1nat,
{
    let ghost vs = face_views(fs@);
    let ks = thread_kids(node, fs);
    let ghost kv = IRNode::views(ks@);
    assert(ks@.len() == kv.len());
    match node {
        IRNode::Let { pattern, value, .. } => {
            assert(node@.kids().len() == 2);
            match &**value {
                IRNode::Call { function, args, .. } => {
                    assert((*value)@ == (**value)@);
                    match find_face(fs, *function) {
                        Some(c) => if c.value_face && !args_already_threaded(args, &c.ghosts) {
                            let mut rest = ks;
                            let body = rest.pop();
                            let call = rest.pop();
                            match (call, body) {
                                (Some(v), Some(b)) => {
                                    assert(v@ == kv[0] && b@ == kv[1]);
                                    return build_destructure(clone_names(pattern), v, b, c);
                                },
                                _ => {
                                    return node.clone();
                                },
                            }
                        },
                        None => {},
                    }
                },
                _ => {},
            }
            node.with_children(ks)
        },
        IRNode::Call { function, type_args, args } => {
            let mut all = ks;
            match find_face(fs, *function) {
                Some(c) => {
                    if !args_already_threaded(args, &c.ghosts) {
                        push_vars(&mut all, &c.ghosts);
                    } else {
                        assert(IRNode::views(all@) =~= kv + Seq::empty());
                    }
                },
                None => {
                    assert(IRNode::views(all@) =~= kv + Seq::empty());
                },
            }
            IRNode::Call { function: *function, type_args: clone_types(type_args), args: all }
        },
        _ => node.with_children(ks),
    }
}

/// Gives the calls in the direct subexpressions the values of markers.
fn thread_kids(node: &IRNode, fs: &Vec<(FunctionID, Option<CalleeInfo>)>) -> (r: Vec<IRNode>)
    ensures
        IRNode::views(r@) == threaded_kids(node@, face_views(fs@)),
        r@.len() == node@.kids().len(),
    decreases node@, 0nat,
{
    let ghost vs = face_views(fs@);
    let ks = node.children();
    let mut out: Vec<IRNode> = Vec::new();
    let mut i: usize = 0;
    proof {
        node@.lemma_kids_decrease();
    }
    while i < ks.len()
        invariant
            i <= ks.len(),
            out@.len() == i,
            vs == face_views(fs@),
            ks@.len() == node@.kids().len(),
            forall|j: int| 0 <= j < ks@.len() ==> (#[trigger] ks@[j])@ == node@.kids()[j],
            forall|j: int|
                0 <= j < i ==> (#[trigger] out@[j])@ == sites_threaded(node@.kids()[j], vs),
            forall|j: int| 0 <= j < node@.kids().len() ==> decreases_to!(
                node@ => #[trigger] node@.kids()[j]
            ),
        decreases ks.len() - i,
    {
        assert(ks@[i as int]@ == node@.kids()[i as int]);
        out.push(thread_sites(ks[i], fs));
        i += 1;
    }
    assert(IRNode::views(out@) =~= threaded_kids(node@, vs));
    out
}

/// The values of the markers: a variable, or a tuple of several.
pub open spec fn ghost_value(ghosts: Seq<Name>) -> Node {
    if ghosts.len() == 1 {
        Node::Var(ghosts[0])
    } else {
        Node::Tuple(crate::phi_lifting::var_nodes(ghosts))
    }
}

/// The values of the markers.
fn ghost_vars_node(ghosts: &Vec<TempId>) -> (r: IRNode)
    ensures
        r@ == ghost_value(crate::ir::names(ghosts@)),
{
    assert(crate::ir::names(ghosts@).len() == ghosts@.len());
    if ghosts.len() == 1 {
        IRNode::Var(ghosts[0].clone())
    } else {
        let mut elems: Vec<IRNode> = Vec::new();
        assert(IRNode::views(elems@) =~= Seq::empty());
        push_vars(&mut elems, ghosts);
        assert(IRNode::views(elems@) =~= crate::phi_lifting::var_nodes(crate::ir::names(ghosts@)));
        IRNode::Tuple(elems)
    }
}

/// What a function returns: a value, and the values of the markers behind it; or
/// the latter alone, where the function returned the unit value.
pub open spec fn with_ghost_value(n: Node, ghosts: Seq<Name>, unit: bool) -> Node {
    if unit {
        Node::Let {
            pattern: Seq::empty(),
            value: Box::new(n),
            body: Box::new(ghost_value(ghosts)),
        }
    } else {
        Node::Tuple(seq![n] + crate::phi_lifting::var_nodes(ghosts))
    }
}

/// Adds the values of the markers to what a function returns.
fn build_my_tail(n: IRNode, ghosts: &Vec<TempId>, unit: bool) -> (r: IRNode)
    ensures
        r@ == with_ghost_value(n@, crate::ir::names(ghosts@), unit),
{
    if unit {
        let r = IRNode::Let {
            pattern: Vec::new(),
            value: Box::new(n),
            body: Box::new(ghost_vars_node(ghosts)),
        };
        assert(crate::ir::names(r->Let_pattern@) =~= Seq::empty());
        r
    } else {
        let mut elems: Vec<IRNode> = Vec::new();
        elems.push(n);
        assert(IRNode::views(elems@) =~= seq![n@]);
        push_vars(&mut elems, ghosts);
        IRNode::Tuple(elems)
    }
}

/// The tail of a function that computes a value: an abort stays; a call of a
/// function that returns the same comes through; another such call is taken apart;
/// anything else is joined with the values of the markers.
pub open spec fn ghost_tail(
    n: Node,
    ghosts: Seq<Name>,
    unit: bool,
    fs: Seq<(FunctionID, Option<Face>)>,
) -> Node {
    match n {
        Node::Abort { .. } => n,
        Node::Call { function, type_args, args } => match face_of(fs, function) {
            Some(f) => {
                let call = Node::Call {
                    function,
                    type_args,
                    args: args + owed(args, Some(f)),
                };
                if f.ghosts == ghosts && f.returns_unit == unit {
                    call
                } else if f.returns_unit {
                    Node::Let {
                        pattern: f.ghosts,
                        value: Box::new(call),
                        body: Box::new(ghost_value(ghosts)),
                    }
                } else {
                    Node::Let {
                        pattern: seq!["__ghost_tail_ret"@] + f.ghosts,
                        value: Box::new(call),
                        body: Box::new(
                            with_ghost_value(Node::Var("__ghost_tail_ret"@), ghosts, unit),
                        ),
                    }
                }
            },
            None => with_ghost_value(n, ghosts, unit),
        },
        _ => if unit && crate::early_return::is_unit_value(n) {
            ghost_value(ghosts)
        } else {
            with_ghost_value(n, ghosts, unit)
        },
    }
}

/// The step at the tails of a function that computes a value.
pub open spec fn ghost_tails(
    ghosts: Seq<Name>,
    unit: bool,
    fs: Seq<(FunctionID, Option<Face>)>,
) -> spec_fn(Node) -> Node {
    |m: Node|
        if crate::parts::controls(m) {
            m
        } else {
            ghost_tail(m, ghosts, unit, fs)
        }
}

/// The body of a function that computes a value, with the values of the markers
/// returned at its tails.
pub open spec fn tails_wrapped(
    n: Node,
    ghosts: Seq<Name>,
    unit: bool,
    fs: Seq<(FunctionID, Option<Face>)>,
) -> Node {
    n.map_in(|m: Node, i: int| crate::parts::at_leaf(m, i), ghost_tails(ghosts, unit, fs))
}

/// The step that returns the values of markers at a tail.
struct WrapTail<'a> {
    ghosts: &'a Vec<TempId>,
    unit: bool,
    fs: &'a Vec<(FunctionID, Option<CalleeInfo>)>,
}

impl<'a> Rewrite for WrapTail<'a> {
    closed spec fn accepts(&self, n: Node) -> bool {
        true
    }

    closed spec fn step(&self, n: Node) -> Node {
        if crate::parts::controls(n) {
            n
        } else {
            ghost_tail(n, crate::ir::names(self.ghosts@), self.unit, face_views(self.fs@))
        }
    }

    fn apply(&self, n: IRNode) -> (r: IRNode) {
        if is_control(&n) {
            return n;
        }
        wrap_terminal(n, self.ghosts, self.unit, self.fs)
    }
}

/// Returns the values of the markers at a tail.
fn wrap_terminal(
    n: IRNode,
    ghosts: &Vec<TempId>,
    unit: bool,
    fs: &Vec<(FunctionID, Option<CalleeInfo>)>,
) -> (r: IRNode)
    ensures
        r@ == ghost_tail(n@, crate::ir::names(ghosts@), unit, face_views(fs@)),
{
    match n {
        IRNode::Abort { .. } => n,
        IRNode::Call { function, type_args, args } => match find_face(fs, function) {
            Some(c) => {
                let ghost xs = IRNode::views(args@);
                let mut all = args;
                if !args_already_threaded(&all, &c.ghosts) {
                    push_vars(&mut all, &c.ghosts);
                }
                assert(IRNode::views(all@) =~= xs + owed(xs, Some(c@)));
                let call = IRNode::Call { function, type_args, args: all };
                if crate::ir::same_names(&c.ghosts, ghosts) && c.returns_unit == unit {
                    return call;
                }
                if c.returns_unit {
                    return IRNode::Let {
                        pattern: clone_names(&c.ghosts),
                        value: Box::new(call),
                        body: Box::new(ghost_vars_node(ghosts)),
                    };
                }
                let own = IRNode::Var("__ghost_tail_ret".to_owned());
                IRNode::Let {
                    pattern: join_names(one_name("__ghost_tail_ret"), &c.ghosts),
                    value: Box::new(call),
                    body: Box::new(build_my_tail(own, ghosts, unit)),
                }
            },
            None => build_my_tail(IRNode::Call { function, type_args, args }, ghosts, unit),
        },
        other => {
            if unit && is_empty_tuple(&other) {
                ghost_vars_node(ghosts)
            } else {
                build_my_tail(other, ghosts, unit)
            }
        },
    }
}

/// Returns the values of the markers at the tails of a body.
fn wrap_tails(
    node: &IRNode,
    ghosts: &Vec<TempId>,
    unit: bool,
    fs: &Vec<(FunctionID, Option<CalleeInfo>)>,
) -> (r: IRNode)
    ensures
        r@ == tails_wrapped(node@, crate::ir::names(ghosts@), unit, face_views(fs@)),
{
    let w = Leaves;
    let t = WrapTail { ghosts, unit, fs };
    assert((|m: Node, i: int| Within::enters(&w, m, i)) =~= (|m: Node, i: int|
        crate::parts::at_leaf(m, i)));
    assert((|n: Node| t.step(n)) =~= ghost_tails(
        crate::ir::names(ghosts@),
        unit,
        face_views(fs@),
    ));
    map_within(node, &w, &t)
}

/// The variable of the marker that a ghost operation names.
pub open spec fn op_var(p: Prog, ms: Markers, type_args: Seq<Ty>) -> Option<Name> {
    if type_args.len() == 2 && ms.contains((type_args[0], type_args[1])) {
        Some(ghost_name(p, type_args[0]))
    } else {
        None
    }
}

/// The name of the variable that carries a marker's value.
fn var_name(program: &Program, k: &Type) -> (r: TempId)
    ensures
        r@ == ghost_name(program@, k@),
{
    let key = crate::markers::key_of(program, k);
    append("__ghost_", &key.0)
}

/// The variable of the marker that a ghost operation names.
fn find_op_var(program: &Program, ms: &Vec<(Type, Type)>, type_args: &Vec<Type>) -> (r: Option<
    TempId,
>)
    ensures
        crate::shadowing::optional_name(r) == op_var(
            program@,
            crate::program::type_pairs(ms@),
            Type::views(type_args@),
        ),
{
    assert(Type::views(type_args@).len() == type_args@.len());
    if type_args.len() != 2 {
        return None;
    }
    assert(Type::views(type_args@)[0] == type_args@[0]@);
    assert(Type::views(type_args@)[1] == type_args@[1]@);
    if has_marker(ms, &type_args[0], &type_args[1]) {
        Some(var_name(program, &type_args[0]))
    } else {
        None
    }
}

/// The expression that a reference is read of, or the expression.
pub open spec fn unread(n: Node) -> Node {
    match n {
        Node::ReadRef(inner) => *inner,
        _ => n,
    }
}

/// The variable and the value of a call that sets a marker.
pub open spec fn set_call(value: Node, p: Prog, ops: Ops, ms: Markers) -> Option<(Name, Node)> {
    match value {
        Node::Call { function, type_args, args } => if ops.set.contains(function) && args.len()
            > 0 {
            match op_var(p, ms, type_args) {
                Some(x) => Some((x, unread(args[0]))),
                None => None,
            }
        } else {
            None
        },
        _ => None,
    }
}

/// The variable and the value of a bound call that sets a marker.
pub open spec fn set_of(n: Node, p: Prog, ops: Ops, ms: Markers) -> Option<(Name, Node)> {
    match n {
        Node::Let { value, .. } => set_call(*value, p, ops, ms),
        _ => None,
    }
}

/// What a marker is set to stands inside the binding.
pub proof fn lemma_set_inside(n: Node, p: Prog, ops: Ops, ms: Markers)
    ensures
        set_of(n, p, ops, ms) matches Some((x, v)) ==> decreases_to!(n => v),
{
    match n {
        Node::Let { value, .. } => {
            n.lemma_kids_decrease();
            assert(n.kids()[0] == *value);
            match *value {
                Node::Call { args, .. } => {
                    if args.len() > 0 {
                        value.lemma_kids_decrease();
                        assert(value.kids()[0] == args[0]);
                        assert(decreases_to!(*value => args[0]));
                        match args[0] {
                            Node::ReadRef(inner) => {
                                args[0].lemma_kids_decrease();
                                assert(args[0].kids()[0] == *inner);
                            },
                            _ => {},
                        }
                    }
                },
                _ => {},
            }
        },
        _ => {},
    }
}

/// The expression whose ghost operations are variables: reading a marker is the
/// variable, and setting it binds the variable anew.
pub open spec fn ops_lowered(n: Node, p: Prog, ops: Ops, ms: Markers) -> Node
    decreases n, 1nat,
{
    match set_of(n, p, ops, ms) {
        Some((x, v)) => {
            proof {
                lemma_set_inside(n, p, ops, ms);
            }
            Node::Let {
                pattern: seq![x],
                value: Box::new(ops_lowered(v, p, ops, ms)),
                body: Box::new(ops_lowered(*n->Let_body, p, ops, ms)),
            }
        },
        None => match n {
            Node::Call { function, type_args, .. } => if ops.read.contains(function) && op_var(
                p,
                ms,
                type_args,
            ) is Some {
                Node::Var(op_var(p, ms, type_args)->0)
            } else {
                n.with_kids(lowered_kids(n, p, ops, ms))
            },
            _ => n.with_kids(lowered_kids(n, p, ops, ms)),
        },
    }
}

/// The direct subexpressions whose ghost operations are variables.
pub open spec fn lowered_kids(n: Node, p: Prog, ops: Ops, ms: Markers) -> Seq<Node>
    decreases n, 0nat,
{
    proof {
        n.lemma_kids_decrease();
    }
    Seq::new(
        n.kids().len(),
        |i: int|
            if 0 <= i < n.kids().len() {
                ops_lowered(n.kids()[i], p, ops, ms)
            } else {
                arbitrary()
            },
    )
}

/// The variable and the value of a bound call that sets a marker.
fn find_set<'a>(
    value: &'a IRNode,
    program: &Program,
    ops: &GhostOpFids,
    ms: &Vec<(Type, Type)>,
) -> (r: Option<(TempId, &'a IRNode)>)
    ensures
        match r {
            Some((x, v)) => set_call(value@, program@, ops@, crate::program::type_pairs(ms@))
                == Some((x@, v@)),
            None => set_call(value@, program@, ops@, crate::program::type_pairs(ms@)) is None,
        },
{
    proof {
        reveal_with_fuel(IRNode::view, 3);
    }
    match value {
        IRNode::Call { function, type_args, args } => {
            assert(IRNode::views(args@).len() == args@.len());
            if !contains_id(&ops.set, *function) || args.len() == 0 {
                return None;
            }
            match find_op_var(program, ms, type_args) {
                Some(x) => {
                    let first = &args[0];
                    assert(IRNode::views(args@)[0] == first@);
                    match first {
                        IRNode::ReadRef(inner) => Some((x, &**inner)),
                        _ => Some((x, first)),
                    }
                },
                None => None,
            }
        },
        _ => None,
    }
}

/// Turns the ghost operations of an expression into variables.
fn lower_ghost_ops(
    node: &IRNode,
    program: &Program,
    ops: &GhostOpFids,
    ms: &Vec<(Type, Type)>,
) -> (r: IRNode)
    ensures
        r@ == ops_lowered(node@, program@, ops@, crate::program::type_pairs(ms@)),
    decreases node@, 1nat,
{
    let ghost p = program@;
    let ghost mv = crate::program::type_pairs(ms@);
    match node {
        IRNode::Let { pattern, value, body } => {
            let ghost ps = crate::ir::names(pattern@);
            assert(node@ == (Node::Let {
                pattern: ps,
                value: Box::new((*value)@),
                body: Box::new((*body)@),
            }));
            match find_set(value, program, ops, ms) {
                Some((x, v)) => {
                    proof {
                        lemma_set_inside(node@, p, ops@, mv);
                    }
                    let ghost xv = x@;
                    let lowered = lower_ghost_ops(v, program, ops, ms);
                    let rest = lower_ghost_ops(body, program, ops, ms);
                    let mut own: Vec<TempId> = Vec::new();
                    own.push(x);
                    assert(crate::ir::names(own@) =~= seq![xv]);
                    IRNode::Let { pattern: own, value: Box::new(lowered), body: Box::new(rest) }
                },
                None => {
                    assert(set_of(node@, p, ops@, mv) is None);
                    lower_kids(node, program, ops, ms)
                },
            }
        },
        IRNode::Call { function, type_args, .. } => {
            if contains_id(&ops.read, *function) {
                match find_op_var(program, ms, type_args) {
                    Some(x) => {
                        return IRNode::Var(x);
                    },
                    None => {},
                }
            }
            lower_kids(node, program, ops, ms)
        },
        _ => lower_kids(node, program, ops, ms),
    }
}

/// Turns the ghost operations in the direct subexpressions into variables.
fn lower_kids(
    node: &IRNode,
    program: &Program,
    ops: &GhostOpFids,
    ms: &Vec<(Type, Type)>,
) -> (r: IRNode)
    ensures
        r@ == node@.with_kids(
            lowered_kids(node@, program@, ops@, crate::program::type_pairs(ms@)),
        ),
    decreases node@, 0nat,
{
    let ghost p = program@;
    let ghost mv = crate::program::type_pairs(ms@);
    let ks = node.children();
    let mut out: Vec<IRNode> = Vec::new();
    let mut i: usize = 0;
    proof {
        node@.lemma_kids_decrease();
    }
    while i < ks.len()
        invariant
            i <= ks.len(),
            out@.len() == i,
            p == program@,
            mv == crate::program::type_pairs(ms@),
            ks@.len() == node@.kids().len(),
            forall|j: int| 0 <= j < ks@.len() ==> (#[trigger] ks@[j])@ == node@.kids()[j],
            forall|j: int|
                0 <= j < i ==> (#[trigger] out@[j])@ == ops_lowered(
                    node@.kids()[j],
                    p,
                    ops@,
                    mv,
                ),
            forall|j: int| 0 <= j < node@.kids().len() ==> decreases_to!(
                node@ => #[trigger] node@.kids()[j]
            ),
        decreases ks.len() - i,
    {
        assert(ks@[i as int]@ == node@.kids()[i as int]);
        out.push(lower_ghost_ops(ks[i], program, ops, ms));
        i += 1;
    }
    assert(IRNode::views(out@) =~= lowered_kids(node@, p, ops@, mv));
    node.with_children(out)
}

/// What a function returns that threads markers: the values of the markers behind
/// what it returned, or alone where it returned the unit value.
pub open spec fn augmented_return(t: Ty, ghosts: Seq<Ty>) -> Ty {
    if t == Ty::unit() {
        if ghosts.len() == 1 {
            ghosts[0]
        } else {
            Ty::Tuple(ghosts)
        }
    } else {
        Ty::Tuple(seq![t] + ghosts)
    }
}

/// The parameters that carry the values of markers.
pub open spec fn ghost_params(p: Prog, ms: Markers) -> Seq<Param> {
    Seq::new(
        ms.len(),
        |i: int|
            Param {
                name: ghost_name(p, ms[i].0),
                param_type: ms[i].1,
                ssa_value: ghost_name(p, ms[i].0),
            },
    )
}

/// The body of a function that threads markers.
pub open spec fn ghosted_body(
    p: Prog,
    f: Func,
    ms: Markers,
    ops: Ops,
    fs: Seq<(FunctionID, Option<Face>)>,
) -> Node {
    let own = face(p, f, Some(ms))->0;
    let wrapped = if own.value_face {
        tails_wrapped(f.body, own.ghosts, own.returns_unit, fs)
    } else {
        f.body
    };
    ops_lowered(sites_threaded(wrapped, fs), p, ops, ms)
}

/// A function that threads markers.
pub open spec fn ghosted(
    p: Prog,
    f: Func,
    e: Option<Markers>,
    seeded: bool,
    ops: Ops,
    fs: Seq<(FunctionID, Option<Face>)>,
) -> Func {
    match e {
        Some(ms) => Func {
            name: if seeded {
                f.name + "__ghost"@
            } else {
                f.name
            },
            signature: Signature {
                parameters: f.signature.parameters + ghost_params(p, ms),
                return_type: if computes_value(f.name, f.signature.return_type) {
                    augmented_return(f.signature.return_type, ghost_types(ms))
                } else {
                    f.signature.return_type
                },
                ..f.signature
            },
            body: if f.is_native {
                f.body
            } else {
                ghosted_body(p, f, ms, ops, fs)
            },
            ..f
        },
        None => f,
    }
}

/// Whether the function stands in the module of ghost operations.
pub open spec fn is_ghost_op(p: Prog, f: Func) -> bool {
    p.has_module(f.module_id) && p.module(f.module_id).name == "ghost"@
}

/// The ghost operations among the first `k` functions.
pub open spec fn ghost_ops(p: Prog, k: nat) -> Ops
    decreases k,
{
    if k == 0 {
        Ops { read: Seq::empty(), set: Seq::empty() }
    } else {
        let before = ghost_ops(p, (k - 1) as nat);
        let (id, f) = p.functions[k - 1];
        if is_ghost_op(p, f) && (f.name == "global"@ || f.name == "borrow_mut"@) {
            Ops { read: before.read.push(id), set: before.set }
        } else if is_ghost_op(p, f) && f.name == "set"@ {
            Ops { read: before.read, set: before.set.push(id) }
        } else {
            before
        }
    }
}

/// Finds the ghost operations.
fn resolve_ghost_op_fids(program: &Program) -> (r: GhostOpFids)
    ensures
        r@ == ghost_ops(program@, program@.functions.len()),
{
    let ghost p = program@;
    let mut read: Vec<FunctionID> = Vec::new();
    let mut set: Vec<FunctionID> = Vec::new();
    let n = program.functions.len();
    let mut i: usize = 0;
    while i < n
        invariant
            i <= n,
            n == program.functions@.len(),
            p == program@,
            n == p.functions.len(),
            (Ops { read: read@, set: set@ }) == ghost_ops(p, i as nat),
        decreases n - i,
    {
        let func = &program.functions[i].1;
        let id = program.functions[i].0;
        assert(p.functions[i as int] == (id, func@));
        let in_module = match slot_of(&program.modules, func.module_id) {
            Some(k) => {
                proof {
                    crate::program::lemma_same_slots(
                        program.modules@,
                        p.modules,
                        func.module_id,
                    );
                }
                is_text(&program.modules[k].1.name, "ghost")
            },
            None => {
                proof {
                    crate::program::lemma_same_slots(
                        program.modules@,
                        p.modules,
                        func.module_id,
                    );
                }
                false
            },
        };
        assert(in_module == is_ghost_op(p, func@));
        if in_module {
            if is_text(&func.name, "global") || is_text(&func.name, "borrow_mut") {
                read.push(id);
            } else if is_text(&func.name, "set") {
                set.push(id);
            }
        }
        i += 1;
    }
    GhostOpFids { read, set }
}

/// Whether the seed has the function.
pub open spec fn is_seeded(seed: Seq<(FunctionID, Markers)>, id: FunctionID) -> bool {
    crate::program::slot(seed, id) is Some
}

/// What is recorded of the functions that thread markers, in their order.
pub open spec fn recorded(p: Prog, g: Threaded, k: nat) -> Seq<(FunctionID, Markers)>
    decreases k,
{
    if k == 0 {
        Seq::empty()
    } else {
        let before = recorded(p, g, (k - 1) as nat);
        match g[k - 1] {
            Some(ms) => before.push((p.functions[k - 1].0, ms)),
            None => before,
        }
    }
}

/// The program whose functions thread the markers of its seed.
pub open spec fn ghosts_threaded(p: Prog) -> Prog {
    let seed = p.ghost_native_seed;
    if seed.len() == 0 {
        p
    } else {
        let ops = ghost_ops(p, p.functions.len());
        let g = crate::markers::threaded_by(p, seed, ops);
        let fs = faces(p, g);
        Prog {
            functions: Seq::new(
                p.functions.len(),
                |i: int|
                    (
                        p.functions[i].0,
                        ghosted(
                            p,
                            p.functions[i].1,
                            g[i],
                            is_seeded(seed, p.functions[i].0),
                            ops,
                            fs,
                        ),
                    ),
            ),
            ghost_native_seed: Seq::empty(),
            ghost_vars: recorded(p, g, p.functions.len()),
            ..p
        }
    }
}

/// Whether a marker's key is a known structure.
pub open spec fn known_marker(p: Prog, m: (Ty, Ty)) -> bool {
    m.0 matches Ty::Struct { struct_id, .. } && p.has_struct(struct_id)
}

/// Whether no two structures of the markers share a name.
pub open spec fn told_apart(p: Prog, ms: Markers) -> bool {
    forall|i: int, j: int|
        0 <= i < ms.len() && 0 <= j < ms.len() && crate::markers::marker_key(
            p,
            (#[trigger] ms[i]).0,
        ).0 == crate::markers::marker_key(p, (#[trigger] ms[j]).0).0
            ==> crate::markers::marker_key(p, ms[i].0) == crate::markers::marker_key(p, ms[j].0)
}

/// Whether each call of a function that computes a value and threads markers is
/// bound, or has the values already.
pub open spec fn sites_bound(n: Node, fs: Seq<(FunctionID, Option<Face>)>, bound: bool) -> bool
    decreases n,
{
    proof {
        n.lemma_kids_decrease();
    }
    &&& bound || bound_face(n, fs) is None
    &&& forall|i: int|
        0 <= i < n.kids().len() ==> sites_bound(#[trigger] n.kids()[i], fs, n is Let && i == 0)
}

/// Whether each tail that calls a function that threads markers calls one that
/// computes a value.
pub open spec fn tails_compute(n: Node, fs: Seq<(FunctionID, Option<Face>)>) -> bool {
    !n.any_in(
        |m: Node, i: int| crate::parts::at_leaf(m, i),
        |m: Node|
            m matches Node::Call { function, .. } && face_of(fs, function) is Some && !face_of(
                fs,
                function,
            )->0.value_face,
    )
}

/// Whether nothing takes the result of setting a marker, and each setting has a
/// value.
pub open spec fn sets_unbound(n: Node, p: Prog, ops: Ops, ms: Markers) -> bool {
    !n.any(
        |m: Node|
            m matches Node::Let { pattern, value, .. } && (*value matches Node::Call {
                function,
                type_args,
                args,
            } && ops.set.contains(function) && op_var(p, ms, type_args) is Some && (args.len() == 0
                || exists|i: int| 0 <= i < pattern.len() && #[trigger] pattern[i] != "_"@)),
    )
}

/// Whether markers can be threaded through the program: the seed names native
/// functions and known structures that are told apart by their names, and the calls
/// and ghost operations stand where values can be handed on.
pub open spec fn threadable(p: Prog) -> bool {
    let seed = p.ghost_native_seed;
    let ops = ghost_ops(p, p.functions.len());
    let g = crate::markers::threaded_by(p, seed, ops);
    let fs = faces(p, g);
    seed.len() > 0 ==> {
        &&& forall|i: int|
            0 <= i < seed.len() ==> p.has((#[trigger] seed[i]).0) && p.func(seed[i].0).is_native
                && forall|j: int|
                0 <= j < seed[i].1.len() ==> known_marker(p, #[trigger] seed[i].1[j])
        &&& forall|i: int|
            0 <= i < p.functions.len() ==> p.has_module((#[trigger] p.functions[i]).1.module_id)
        &&& forall|i: int|
            0 <= i < p.functions.len() && g[i] is Some ==> told_apart(p, #[trigger] g[i]->0)
        &&& forall|i: int|
            0 <= i < p.functions.len() && g[i] is Some && !p.functions[i].1.is_native
                ==> #[trigger] body_threadable(p, p.functions[i].1, g[i]->0, ops, fs)
    }
}

/// Whether the calls and ghost operations of a function stand where values can be
/// handed on.
pub open spec fn body_threadable(
    p: Prog,
    f: Func,
    ms: Markers,
    ops: Ops,
    fs: Seq<(FunctionID, Option<Face>)>,
) -> bool {
    let own = face(p, f, Some(ms))->0;
    let wrapped = if own.value_face {
        tails_wrapped(f.body, own.ghosts, own.returns_unit, fs)
    } else {
        f.body
    };
    &&& own.value_face ==> tails_compute(f.body, fs)
    &&& sites_bound(wrapped, fs, false)
    &&& sets_unbound(sites_threaded(wrapped, fs), p, ops, ms)
}

/// What the names of the variables of markers are.
fn name_ghosts(program: &Program, ms: &Vec<(Type, Type)>) -> (r: Vec<TempId>)
    ensures
        crate::ir::names(r@) == ghost_names(program@, crate::program::type_pairs(ms@)),
{
    let ghost p = program@;
    let ghost mv = crate::program::type_pairs(ms@);
    let mut out: Vec<TempId> = Vec::new();
    let mut i: usize = 0;
    while i < ms.len()
        invariant
            i <= ms.len(),
            p == program@,
            mv == crate::program::type_pairs(ms@),
            out@.len() == i,
            forall|j: int| 0 <= j < i ==> (#[trigger] out@[j])@ == ghost_name(p, mv[j].0),
        decreases ms.len() - i,
    {
        assert(mv[i as int].0 == ms@[i as int].0@);
        out.push(var_name(program, &ms[i].0));
        i += 1;
    }
    assert(crate::ir::names(out@) =~= ghost_names(p, mv));
    out
}

/// Whether a function computes a value.
fn is_value_face(name: &String, return_type: &Type) -> (r: bool)
    ensures
        r == computes_value(name@, return_type@),
{
    let prop = match return_type {
        Type::Prop => true,
        _ => false,
    };
    !(has_text(name, ".aborts") || has_text(name, ".requires") || has_text(name, ".ensures")
        || prop)
}

/// What calls have to know of the functions.
fn capture_faces(program: &Program, g: &Vec<Option<Vec<(Type, Type)>>>) -> (r: Vec<
    (FunctionID, Option<CalleeInfo>),
>)
    requires
        g@.len() == program@.functions.len(),
    ensures
        face_views(r@) == faces(program@, crate::markers::threaded_views(g@)),
{
    let ghost p = program@;
    let ghost gv = crate::markers::threaded_views(g@);
    let mut out: Vec<(FunctionID, Option<CalleeInfo>)> = Vec::new();
    let n = program.functions.len();
    let mut i: usize = 0;
    while i < n
        invariant
            i <= n,
            n == program.functions@.len(),
            p == program@,
            n == p.functions.len(),
            g@.len() == n,
            gv == crate::markers::threaded_views(g@),
            out@.len() == i,
            forall|j: int|
                0 <= j < i ==> #[trigger] face_views(out@)[j] == (
                    p.functions[j].0,
                    face(p, p.functions[j].1, gv[j]),
                ),
        decreases n - i,
    {
        let func = &program.functions[i].1;
        let id = program.functions[i].0;
        assert(p.functions[i as int] == (id, func@));
        let ghost before = out@;
        assert(gv[i as int] == crate::markers::optional_markers(g@[i as int]));
        let info = match &g[i] {
            Some(ms) => Some(
                CalleeInfo {
                    value_face: is_value_face(&func.name, &func.signature.return_type),
                    returns_unit: func.signature.return_type.same(&Type::unit()),
                    ghosts: name_ghosts(program, ms),
                },
            ),
            None => None,
        };
        out.push((id, info));
        assert forall|j: int| 0 <= j < i + 1 implies #[trigger] face_views(out@)[j] == (
            p.functions[j].0,
            face(p, p.functions[j].1, gv[j]),
        ) by {
            if j < i {
                assert(out@[j] == before[j]);
                assert(face_views(before)[j] == (
                    p.functions[j].0,
                    face(p, p.functions[j].1, gv[j]),
                ));
            }
        }
        i += 1;
    }
    assert(face_views(out@) =~= faces(p, gv));
    out
}

/// The parameters of a function that threads markers.
fn build_params(program: &Program, own: &Vec<Parameter>, ms: &Vec<(Type, Type)>) -> (r: Vec<
    Parameter,
>)
    ensures
        Parameter::views(r@) == Parameter::views(own@) + ghost_params(
            program@,
            crate::program::type_pairs(ms@),
        ),
{
    let ghost p = program@;
    let ghost mv = crate::program::type_pairs(ms@);
    let ghost start = Parameter::views(own@);
    let ghost more = ghost_params(p, mv);
    let mut out = crate::program::clone_params(own);
    let mut i: usize = 0;
    assert(start + more.subrange(0, 0) =~= start);
    while i < ms.len()
        invariant
            i <= ms.len(),
            p == program@,
            mv == crate::program::type_pairs(ms@),
            more == ghost_params(p, mv),
            Parameter::views(out@) == start + more.subrange(0, i as int),
        decreases ms.len() - i,
    {
        let ghost before = Parameter::views(out@);
        let name = var_name(program, &ms[i].0);
        let param = Parameter {
            name: name.clone(),
            param_type: ms[i].1.clone(),
            ssa_value: name,
        };
        assert(param@ == more[i as int]);
        out.push(param);
        assert(Parameter::views(out@) =~= before.push(more[i as int]));
        assert(Parameter::views(out@) =~= start + more.subrange(0, i + 1));
        i += 1;
    }
    assert(more.subrange(0, i as int) =~= more);
    out
}

/// What a function returns that threads markers.
fn build_return(t: &Type, ms: &Vec<(Type, Type)>) -> (r: Type)
    ensures
        r@ == augmented_return(t@, ghost_types(crate::program::type_pairs(ms@))),
{
    let ghost gs = ghost_types(crate::program::type_pairs(ms@));
    let unit = t.same(&Type::unit());
    assert(gs.len() == ms@.len());
    if unit && ms.len() == 1 {
        assert(gs[0] == ms@[0].1@);
        return ms[0].1.clone();
    }
    let mut out: Vec<Type> = Vec::new();
    if !unit {
        out.push(t.clone());
    }
    let ghost start = Type::views(out@);
    assert(start =~= if unit {
        Seq::empty()
    } else {
        seq![t@]
    });
    let mut i: usize = 0;
    assert(start + gs.subrange(0, 0) =~= start);
    while i < ms.len()
        invariant
            i <= ms.len(),
            gs == ghost_types(crate::program::type_pairs(ms@)),
            Type::views(out@) == start + gs.subrange(0, i as int),
        decreases ms.len() - i,
    {
        let ghost before = Type::views(out@);
        out.push(ms[i].1.clone());
        assert(gs[i as int] == ms@[i as int].1@);
        assert(Type::views(out@) =~= before.push(gs[i as int]));
        assert(Type::views(out@) =~= start + gs.subrange(0, i + 1));
        i += 1;
    }
    assert(gs.subrange(0, i as int) =~= gs);
    assert(start + gs =~= if unit {
        gs
    } else {
        seq![t@] + gs
    });
    Type::Tuple(out)
}

/// The body of a function that threads markers.
fn build_body(
    program: &Program,
    func: &Function,
    ms: &Vec<(Type, Type)>,
    ops: &GhostOpFids,
    fs: &Vec<(FunctionID, Option<CalleeInfo>)>,
) -> (r: IRNode)
    ensures
        r@ == ghosted_body(
            program@,
            func@,
            crate::program::type_pairs(ms@),
            ops@,
            face_views(fs@),
        ),
{
    let value_face = is_value_face(&func.name, &func.signature.return_type);
    let unit = func.signature.return_type.same(&Type::unit());
    let ghosts = name_ghosts(program, ms);
    let wrapped = if value_face {
        wrap_tails(&func.body, &ghosts, unit, fs)
    } else {
        func.body.clone()
    };
    let threaded = thread_sites(&wrapped, fs);
    lower_ghost_ops(&threaded, program, ops, ms)
}

/// Threads the markers of the program's seed through its functions.
pub fn thread_ghosts(program: &mut Program)
    requires
        threadable(old(program)@),
    ensures
        final(program)@ == ghosts_threaded(old(program)@),
{
    let ghost p = program@;
    assert(p.ghost_native_seed.len() == program.ghost_native_seed@.len());
    if program.ghost_native_seed.len() == 0 {
        return ;
    }
    let ops = resolve_ghost_op_fids(program);
    let g = find_threaded(program, &program.ghost_native_seed, &ops);
    let fs = capture_faces(program, &g);
    let ghost seed = p.ghost_native_seed;
    let ghost gv = crate::markers::threaded_views(g@);
    let ghost fv = face_views(fs@);
    let ghost goal = ghosts_threaded(p);
    let mut vars: Vec<(FunctionID, Vec<(Type, Type)>)> = Vec::new();
    let n = program.functions.len();
    let mut i: usize = 0;
    assert(crate::program::marker_views(vars@) =~= Seq::empty());
    while i < n
        invariant
            i <= n,
            n == program.functions@.len(),
            n == p.functions.len(),
            g@.len() == n,
            seed == p.ghost_native_seed,
            gv == crate::markers::threaded_views(g@),
            fv == face_views(fs@),
            goal.functions.len() == n,
            forall|j: int|
                0 <= j < n ==> #[trigger] goal.functions[j] == (
                    p.functions[j].0,
                    ghosted(
                        p,
                        p.functions[j].1,
                        gv[j],
                        is_seeded(seed, p.functions[j].0),
                        ops@,
                        fv,
                    ),
                ),
            crate::program::marker_views(vars@) == recorded(p, gv, i as nat),
            forall|j: int|
                0 <= j < n ==> #[trigger] program@.functions[j] == if j < i {
                    goal.functions[j]
                } else {
                    p.functions[j]
                },
            (Prog { functions: p.functions, ..program@ }) == p,
        decreases n - i,
    {
        let ghost before = *program;
        let func = &program.functions[i].1;
        let id = program.functions[i].0;
        assert(program@.functions[i as int] == (id, func@));
        assert(p.functions[i as int] == (id, func@));
        assert(gv[i as int] == crate::markers::optional_markers(g@[i as int]));
        assert(program@.structs == p.structs);
        match &g[i] {
            Some(ms) => {
                let ghost mv = crate::program::type_pairs(ms@);
                proof {
                    lemma_structs_only(program@, p, func@, mv, ops@, fv);
                    crate::program::lemma_same_slots(
                        program.ghost_native_seed@,
                        seed,
                        id,
                    );
                }
                let seeded = slot_of(&program.ghost_native_seed, id).is_some();
                let params = build_params(program, &func.signature.parameters, ms);
                let value_face = is_value_face(&func.name, &func.signature.return_type);
                let return_type = if value_face {
                    build_return(&func.signature.return_type, ms)
                } else {
                    func.signature.return_type.clone()
                };
                let body = if func.is_native {
                    func.body.clone()
                } else {
                    build_body(program, func, ms, &ops, &fs)
                };
                let name = if seeded {
                    append(&func.name, "__ghost")
                } else {
                    func.name.clone()
                };
                let ghost want = ghosted(p, func@, gv[i as int], seeded, ops@, fv);
                let ghost old_func = func@;
                program.functions[i].1.name = name;
                program.functions[i].1.signature.parameters = params;
                program.functions[i].1.signature.return_type = return_type;
                program.functions[i].1.body = body;
                assert(program.functions@[i as int].1@ =~= want);
                assert(program@.functions[i as int] == goal.functions[i as int]);
                let ghost known = crate::program::marker_views(vars@);
                vars.push((id, crate::markers::clone_markers(ms)));
                assert(crate::program::marker_views(vars@) =~= known.push((id, mv)));
            },
            None => {
                assert(goal.functions[i as int] == p.functions[i as int]);
            },
        }
        assert forall|j: int| 0 <= j < n implies #[trigger] program@.functions[j] == if j < i + 1 {
            goal.functions[j]
        } else {
            p.functions[j]
        } by {
            if j != i {
                assert(program.functions@[j] == before.functions@[j]);
                assert(program@.functions[j] == before@.functions[j]);
            }
        }
        assert((Prog { functions: p.functions, ..program@ }) =~= p);
        i += 1;
    }
    assert(program@.functions =~= goal.functions);
    program.ghost_native_seed = Vec::new();
    program.ghost_vars = vars;
    assert(program@.ghost_native_seed =~= Seq::empty());
    assert(program@ =~= goal);
}

/// A function's parts depend on the structures of the program alone.
proof fn lemma_structs_only(
    a: Prog,
    b: Prog,
    f: Func,
    ms: Markers,
    ops: Ops,
    fs: Seq<(FunctionID, Option<Face>)>,
)
    requires
        a.structs == b.structs,
    ensures
        ghost_params(a, ms) == ghost_params(b, ms),
        ghosted_body(a, f, ms, ops, fs) == ghosted_body(b, f, ms, ops, fs),
{
    assert forall|k: Ty| #[trigger] ghost_name(a, k) == ghost_name(b, k) by {
        assert(crate::markers::marker_key(a, k) == crate::markers::marker_key(b, k));
    }
    assert(ghost_params(a, ms) =~= ghost_params(b, ms));
    assert(ghost_names(a, ms) =~= ghost_names(b, ms));
    let own = face(a, f, Some(ms))->0;
    assert(own == face(b, f, Some(ms))->0);
    let wrapped = if own.value_face {
        tails_wrapped(f.body, own.ghosts, own.returns_unit, fs)
    } else {
        f.body
    };
    lemma_lowered_structs(sites_threaded(wrapped, fs), a, b, ops, ms);
}

/// Lowering ghost operations depends on the structures of the program alone.
proof fn lemma_lowered_structs(n: Node, a: Prog, b: Prog, ops: Ops, ms: Markers)
    requires
        a.structs == b.structs,
    ensures
        ops_lowered(n, a, ops, ms) == ops_lowered(n, b, ops, ms),
    decreases n,
{
    assert forall|k: Ty| #[trigger] ghost_name(a, k) == ghost_name(b, k) by {
        assert(crate::markers::marker_key(a, k) == crate::markers::marker_key(b, k));
    }
    assert(set_of(n, a, ops, ms) == set_of(n, b, ops, ms));
    n.lemma_kids_decrease();
    match set_of(n, a, ops, ms) {
        Some((x, v)) => {
            lemma_set_inside(n, a, ops, ms);
            lemma_lowered_structs(v, a, b, ops, ms);
            assert(n.kids()[1] == *n->Let_body);
            lemma_lowered_structs(*n->Let_body, a, b, ops, ms);
        },
        None => {
            assert forall|i: int| 0 <= i < n.kids().len() implies ops_lowered(
                #[trigger] n.kids()[i],
                a,
                ops,
                ms,
            ) == ops_lowered(n.kids()[i], b, ops, ms) by {
                lemma_lowered_structs(n.kids()[i], a, b, ops, ms);
            }
            assert(lowered_kids(n, a, ops, ms) =~= lowered_kids(n, b, ops, ms));
        },
    }
}

/// A program without a seed stays as it is.
pub proof fn law_no_seed_no_change(p: Prog)
    requires
        p.ghost_native_seed.len() == 0,
    ensures
        ghosts_threaded(p) == p,
{
}

/// A call that has the values of the markers is not given them again.
pub proof fn law_given_once(args: Seq<Node>, f: Face)
    requires
        f.ghosts.len() > 0,
    ensures
        owed(args + owed(args, Some(f)), Some(f)) == Seq::<Node>::empty(),
{
    let all = args + owed(args, Some(f));
    if has_ghosts(args, f.ghosts) {
        assert(all =~= args);
    } else {
        let vs = crate::phi_lifting::var_nodes(f.ghosts);
        assert(all.subrange(all.len() - f.ghosts.len(), all.len() as int) =~= vs);
    }
}

/// What is recorded of a function is what it threads; of others nothing is recorded.
proof fn lemma_recorded(p: Prog, g: Threaded, k: nat, id: FunctionID)
    requires
        k <= p.functions.len(),
        crate::dependency_order::numbers(p.functions).no_duplicates(),
    ensures
        forall|i: int|
            0 <= i < k && (#[trigger] p.functions[i]).0 == id ==> crate::program::lookup(
                recorded(p, g, k),
                id,
            ) == g[i],
        (forall|i: int| 0 <= i < k ==> (#[trigger] p.functions[i]).0 != id)
            ==> crate::program::lookup(recorded(p, g, k), id) is None,
    decreases k,
{
    if k == 0 {
        if crate::program::slot(recorded(p, g, k), id) is Some {
            let i = crate::program::slot(recorded(p, g, k), id)->0;
            assert(crate::program::is_slot(recorded(p, g, k), id, i));
        }
    } else {
        let before = recorded(p, g, (k - 1) as nat);
        let all = recorded(p, g, k);
        let ns = crate::dependency_order::numbers(p.functions);
        lemma_recorded(p, g, (k - 1) as nat, id);
        if p.functions[k - 1].0 == id {
            assert forall|i: int| 0 <= i < k - 1 implies (#[trigger] p.functions[i]).0 != id by {
                assert(ns[i] != ns[k - 1]);
            }
            assert forall|j: int| 0 <= j < before.len() implies (#[trigger] before[j]).0
                != id by {
                if before[j].0 == id {
                    crate::program::lemma_slot_exists(before, id, j);
                }
            }
            if g[k - 1] is Some {
                assert forall|j: int| 0 <= j < before.len() implies (#[trigger] all[j]).0
                    != id by {
                    assert(all[j] == before[j]);
                }
                assert(crate::program::is_slot(all, id, before.len() as int));
                crate::program::lemma_slot(all, id, before.len() as int);
            }
        } else if g[k - 1] is Some {
            crate::program::lemma_lookup_push(before, all.last(), id);
            assert(all =~= before.push(all.last()));
        }
    }
}

/// The markers that are recorded for a function.
pub open spec fn ghost_vars_of(p: Prog, id: FunctionID) -> Markers {
    crate::markers::markers_of(crate::program::lookup(p.ghost_vars, id))
}

/// Every function that is not native records each marker that is recorded for a function
/// which it calls.
pub proof fn law_callers_record_what_callees_do(
    p: Prog,
    i: int,
    callee: FunctionID,
    x: (Ty, Ty),
)
    requires
        0 <= i < p.functions.len(),
        p.ghost_native_seed.len() > 0,
        crate::dependency_order::numbers(p.functions).no_duplicates(),
        !p.functions[i].1.is_native,
        p.functions[i].1.body.calls(callee),
        ghost_vars_of(ghosts_threaded(p), callee).contains(x),
    ensures
        ghost_vars_of(ghosts_threaded(p), p.functions[i].0).contains(x),
{
    let seed = p.ghost_native_seed;
    let ops = ghost_ops(p, p.functions.len());
    let g = crate::markers::threaded_by(p, seed, ops);
    lemma_recorded(p, g, p.functions.len(), callee);
    lemma_recorded(p, g, p.functions.len(), p.functions[i].0);
    assert(exists|j: int|
        0 <= j < p.functions.len() && (#[trigger] p.functions[j]).0 == callee);
    let j = choose|j: int| 0 <= j < p.functions.len() && (#[trigger] p.functions[j]).0 == callee;
    crate::program::lemma_slot_exists(p.functions, callee, j);
    let k = crate::program::slot(p.functions, callee)->0;
    assert(crate::program::is_slot(p.functions, callee, k));
    assert(p.functions[k].0 == callee);
    crate::markers::law_callers_thread_what_callees_do(p, seed, ops, i, callee, x);
}

/// A function for which no marker is recorded stays as it is. Another gets a parameter
/// for each of its markers behind those that it had, in the order of the names of the
/// markers' structures, and named after them; it returns the values of the markers behind
/// what it returned, where it computes a value; and the rest of it but its name and body
/// stays. Markers are recorded for each function of the seed, and these are the functions
/// that change their names.
pub proof fn law_markers_come_last(p: Prog, i: int)
    requires
        0 <= i < p.functions.len(),
        p.ghost_native_seed.len() > 0,
        crate::dependency_order::numbers(p.functions).no_duplicates(),
    ensures
        ({
            let seed = p.ghost_native_seed;
            let (id, f) = p.functions[i];
            let (new_id, g) = ghosts_threaded(p).functions[i];
            &&& new_id == id
            &&& match crate::program::lookup(ghosts_threaded(p).ghost_vars, id) {
                None => g == f && !is_seeded(seed, id),
                Some(ms) => {
                    &&& crate::markers::in_key_order(p, ms)
                    &&& g.signature.parameters == f.signature.parameters + ghost_params(p, ms)
                    &&& g.signature.return_type == if computes_value(
                        f.name,
                        f.signature.return_type,
                    ) {
                        augmented_return(f.signature.return_type, ghost_types(ms))
                    } else {
                        f.signature.return_type
                    }
                    &&& g.name == if is_seeded(seed, id) {
                        f.name + "__ghost"@
                    } else {
                        f.name
                    }
                    &&& g == (Func {
                        name: g.name,
                        signature: Signature {
                            parameters: g.signature.parameters,
                            return_type: g.signature.return_type,
                            ..f.signature
                        },
                        body: g.body,
                        ..f
                    })
                    &&& f.is_native ==> g.body == f.body
                },
            }
        }),
        ghosts_threaded(p).functions.len() == p.functions.len(),
        ghosts_threaded(p).structs == p.structs,
        ghosts_threaded(p).modules == p.modules,
{
    let seed = p.ghost_native_seed;
    let ops = ghost_ops(p, p.functions.len());
    let g = crate::markers::threaded_by(p, seed, ops);
    lemma_recorded(p, g, p.functions.len(), p.functions[i].0);
    crate::markers::law_markers_are_in_order(p, seed, ops, i);
}

/// Whether the expression is a call that lacks the values of markers its callee
/// threads.
pub open spec fn lacks_ghosts(n: Node, fs: Seq<(FunctionID, Option<Face>)>) -> bool {
    n matches Node::Call { function, args, .. } && face_of(fs, function) matches Some(c)
        && c.ghosts.len() > 0 && !has_ghosts(args, c.ghosts)
}

/// Every call of a function that threads markers is given their values.
pub proof fn law_calls_are_given_the_markers(n: Node, fs: Seq<(FunctionID, Option<Face>)>)
    ensures
        !sites_threaded(n, fs).any(|m: Node| lacks_ghosts(m, fs)),
    decreases n,
{
    let q = |m: Node| lacks_ghosts(m, fs);
    n.lemma_kids_decrease();
    let ks = threaded_kids(n, fs);
    assert forall|i: int| 0 <= i < ks.len() implies !(#[trigger] ks[i]).any(q) by {
        law_calls_are_given_the_markers(n.kids()[i], fs);
    }
    n.lemma_with_kids(ks);
    let r = sites_threaded(n, fs);
    match n {
        Node::Let { pattern, value, body } => {
            assert(n.kids() =~= seq![*value, *body]);
            assert(!ks[0].any(q) && !ks[1].any(q));
            match bound_face(*value, fs) {
                Some(f) => {
                    if !f.returns_unit && pattern.len() > 1 {
                        let v = Node::Var("__ghost_orig_ret"@);
                        let inner = *r->Let_body;
                        assert(v.kids().len() == 0);
                        assert(!v.any(q));
                        assert(inner.kids() =~= seq![v, ks[1]]);
                        assert(!inner.any(q));
                        assert(r.kids() =~= seq![ks[0], inner]);
                    } else {
                        assert(r.kids() =~= seq![ks[0], ks[1]]);
                    }
                    assert(!r.any_kid(q));
                },
                None => {
                    assert(!r.any_kid(q));
                },
            }
        },
        Node::Call { function, args, .. } => {
            assert(n.kids() =~= args);
            let more = owed(args, face_of(fs, function));
            assert(r.kids() =~= ks + more);
            assert forall|i: int| 0 <= i < r.kids().len() implies !(#[trigger] r.kids()[i]).any(
                q,
            ) by {
                if i < ks.len() {
                    assert(!ks[i].any(q));
                } else {
                    assert(r.kids()[i] == more[i - ks.len()]);
                    assert(r.kids()[i] is Var);
                    assert(r.kids()[i].kids().len() == 0);
                }
            }
            assert(!q(r)) by {
                if let Some(c) = face_of(fs, function) {
                    let all = r->Call_args;
                    let vs = crate::phi_lifting::var_nodes(c.ghosts);
                    if has_ghosts(args, c.ghosts) {
                        let k = args.len() - c.ghosts.len();
                        assert(args.subrange(k, args.len() as int) =~= vs);
                        assert forall|i: int| k <= i < args.len() implies #[trigger] ks[i]
                            == args[i] by {
                            assert(args.subrange(k, args.len() as int)[i - k] == vs[i - k]);
                            assert(args[i] is Var);
                            let w = args[i];
                            assert(w.kids().len() == 0);
                            assert(w.with_kids(threaded_kids(w, fs)) == w);
                        }
                        assert(all.subrange(k, all.len() as int) =~= vs);
                    } else {
                        assert(all.subrange(all.len() - c.ghosts.len(), all.len() as int) =~= vs);
                    }
                }
            }
        },
        _ => {
            assert(!r.any_kid(q));
            assert(r !is Call);
        },
    }
}

} // verus!
