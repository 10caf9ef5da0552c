//! Cutting a large expression apart into functions of its own.

use crate::assoc::place_of;
use crate::bundles::{AbortsObligation, Obligation};
use crate::cut_types::{clone_known, known_views, register_pattern, try_type, Known};
use crate::idents::mentions_ident;
use crate::ir::{clone_names, IRNode, Node};
use crate::program::{
    Func, Function, FunctionSignature, Hypothesis, Param, Parameter, Prog, Program, ProofParam,
    ProofParamType, PropText, Signature,
};
use crate::sizes::approx_size;
use crate::substitution::{put_subst, subst_exprs, subst_views, Subst};
use crate::text::{append, is_text, number_text};
use crate::traverse::{any_node, contains_name, free_vars, push_name, Test};
use crate::types::{FunctionID, ModuleID, Name, TempId, Ty, Type};
use vstd::prelude::*;

verus! {

/// The function that is cut apart.
#[verifier::ext_equal]
pub struct Whole {
    pub name: Name,
    pub module_id: ModuleID,
    pub return_type: Ty,
    pub params: Seq<Param>,
    pub proof_params: Seq<Hypothesis>,
}

/// The executable [`Whole`].
pub struct Parent {
    pub name: String,
    pub module_id: ModuleID,
    pub return_type: Type,
    pub params: Vec<Parameter>,
    pub proof_params: Vec<ProofParam>,
}

impl Parent {
    /// What the record holds.
    pub open spec fn view(&self) -> Whole {
        Whole {
            name: self.name@,
            module_id: self.module_id,
            return_type: self.return_type@,
            params: Parameter::views(self.params@),
            proof_params: ProofParam::views(self.proof_params@),
        }
    }
}

/// An expression that was made a function of its own, with the variables that it
/// was given.
#[verifier::ext_equal]
pub struct Named {
    pub body: Node,
    pub params: Seq<Name>,
    pub id: FunctionID,
}

/// The executable [`Named`].
pub struct Atom {
    pub body: IRNode,
    pub params: Vec<TempId>,
    pub id: FunctionID,
}

impl Atom {
    /// What the record holds.
    pub open spec fn view(&self) -> Named {
        Named { body: self.body@, params: crate::ir::names(self.params@), id: self.id }
    }

    /// What each of the records holds.
    pub open spec fn views(s: Seq<Atom>) -> Seq<Named> {
        Seq::new(s.len(), |i: int| s[i]@)
    }
}

/// What a list of pairs of expressions holds.
pub open spec fn pair_views(s: Seq<(IRNode, IRNode)>) -> Seq<(Node, Node)> {
    Seq::new(s.len(), |i: int| (s[i].0@, s[i].1@))
}

/// Where the cutting stands: the program, the segments and named expressions that
/// were made, the expressions that segments stand for, and the obligations.
#[verifier::ext_equal]
pub struct St {
    pub p: Prog,
    pub created: Seq<FunctionID>,
    pub atoms: Seq<Named>,
    pub replaced: Seq<(Node, Node)>,
    pub obs: Seq<Obligation>,
}

/// The executable [`St`].
pub struct Session {
    pub program: Program,
    pub created: Vec<FunctionID>,
    pub atoms: Vec<Atom>,
    pub replaced: Vec<(IRNode, IRNode)>,
    pub obs: Vec<AbortsObligation>,
}

impl Session {
    /// What the session holds.
    pub open spec fn view(&self) -> St {
        St {
            p: self.program@,
            created: self.created@,
            atoms: Atom::views(self.atoms@),
            replaced: pair_views(self.replaced@),
            obs: AbortsObligation::views(self.obs@),
        }
    }
}

/// The number above those of the functions.
pub open spec fn above<T>(fs: Seq<(usize, T)>) -> nat
    decreases fs.len(),
{
    if fs.len() == 0 {
        0
    } else {
        let before = above(fs.drop_last());
        if fs.last().0 >= before {
            fs.last().0 as nat + 1
        } else {
            before
        }
    }
}

/// A number that no function has, while there is one.
pub open spec fn fresh_id(p: Prog) -> Option<FunctionID> {
    if above(p.functions) <= usize::MAX {
        Some(above(p.functions) as usize)
    } else {
        None
    }
}

/// The numbers of the functions are below the number above them.
pub proof fn lemma_above<T>(fs: Seq<(usize, T)>, i: int)
    requires
        0 <= i < fs.len(),
    ensures
        fs[i].0 < above(fs),
    decreases fs.len(),
{
    if i < fs.len() - 1 {
        lemma_above(fs.drop_last(), i);
        assert(fs.drop_last()[i] == fs[i]);
    }
}

/// A new function gets a number that no function has.
pub proof fn law_fresh_id_is_new(p: Prog)
    requires
        fresh_id(p) is Some,
    ensures
        !p.has(fresh_id(p)->0),
{
    let id = fresh_id(p)->0;
    if p.has(id) {
        let i = crate::program::slot(p.functions, id)->0;
        assert(crate::program::is_slot(p.functions, id, i));
        lemma_above(p.functions, i);
    }
}

/// A number that no function has, while there is one.
pub fn next_id(program: &Program) -> (r: Option<FunctionID>)
    ensures
        r == fresh_id(program@),
{
    let ghost fs = program@.functions;
    let mut top: Option<usize> = Some(0);
    let mut i: usize = 0;
    assert(fs.subrange(0, 0) =~= Seq::empty());
    while i < program.functions.len()
        invariant
            i <= program.functions.len(),
            fs == program@.functions,
            match top {
                Some(t) => above(fs.subrange(0, i as int)) == t,
                None => above(fs.subrange(0, i as int)) == usize::MAX + 1,
            },
        decreases program.functions.len() - i,
    {
        let ghost next = fs.subrange(0, i + 1);
        assert(next.drop_last() =~= fs.subrange(0, i as int));
        let id = program.functions[i].0;
        assert(next.last().0 == id);
        top = match top {
            Some(t) => if id >= t {
                if id == usize::MAX {
                    None
                } else {
                    Some(id + 1)
                }
            } else {
                Some(t)
            },
            None => None,
        };
        i += 1;
    }
    assert(fs.subrange(0, i as int) =~= fs);
    top
}

/// The program with one more function.
pub open spec fn with_function(p: Prog, id: FunctionID, f: Func) -> Prog {
    Prog { functions: p.functions.push((id, f)), ..p }
}

impl Session {
    /// Adds a function to the program.
    pub fn add_function(&mut self, id: FunctionID, f: Function)
        ensures
            final(self)@ == (St { p: with_function(old(self)@.p, id, f@), ..old(self)@ }),
    {
        let ghost before = self@;
        self.program.functions.push((id, f));
        assert(self@.p.functions =~= before.p.functions.push((id, f@)));
        assert(self@.p =~= with_function(before.p, id, f@));
    }
}

/// The parameters for the variables in scope that are wanted; none where the type
/// of one cannot be told.
pub open spec fn wanted_params(known: Known, want: spec_fn(Name) -> bool) -> Option<Seq<Param>>
    decreases known.len(),
{
    if known.len() == 0 {
        Some(Seq::empty())
    } else {
        match wanted_params(known.drop_last(), want) {
            Some(ps) => {
                let (x, t) = known.last();
                if want(x) {
                    match t {
                        Some(ty) => Some(
                            ps.push(Param { name: x, param_type: ty, ssa_value: x }),
                        ),
                        None => None,
                    }
                } else {
                    Some(ps)
                }
            },
            None => None,
        }
    }
}

/// What an optional list of parameters holds.
pub open spec fn optional_params(ps: Option<Vec<Parameter>>) -> Option<Seq<Param>> {
    match ps {
        Some(v) => Some(Parameter::views(v@)),
        None => None,
    }
}

/// The parameters for the variables in scope that stand in a list.
fn select_params(
    known: &Vec<(TempId, Option<Type>)>,
    wanted: &Vec<TempId>,
    Ghost(want): Ghost<spec_fn(Name) -> bool>,
) -> (r: Option<Vec<Parameter>>)
    requires
        forall|x: Name| #[trigger] crate::ir::names(wanted@).contains(x) <==> want(x),
    ensures
        optional_params(r) == wanted_params(known_views(known@), want),
{
    let ghost all = known_views(known@);
    let mut out: Vec<Parameter> = Vec::new();
    let mut i: usize = 0;
    assert(Parameter::views(out@) =~= Seq::empty());
    assert(all.subrange(0, 0) =~= Seq::empty());
    while i < known.len()
        invariant
            i <= known.len(),
            all == known_views(known@),
            forall|x: Name| #[trigger] crate::ir::names(wanted@).contains(x) <==> want(x),
            Some(Parameter::views(out@)) == wanted_params(all.subrange(0, i as int), want),
        decreases known.len() - i,
    {
        let ghost next = all.subrange(0, i + 1);
        assert(next.drop_last() =~= all.subrange(0, i as int));
        assert(next.last() == all[i as int]);
        let x = &known[i].0;
        assert(all[i as int] == (x@, crate::scope::optional_ty(known@[i as int].1)));
        let hit = contains_name(wanted, x);
        assert(hit == want(x@));
        if hit {
            match &known[i].1 {
                Some(t) => {
                    let ghost before = Parameter::views(out@);
                    let param = Parameter {
                        name: x.clone(),
                        param_type: t.clone(),
                        ssa_value: x.clone(),
                    };
                    out.push(param);
                    assert(Parameter::views(out@) =~= before.push(param@));
                },
                None => {
                    assert(wanted_params(next, want) is None);
                    proof {
                        lemma_wanted_none(all, want, i + 1);
                    }
                    return None;
                },
            }
        }
        i += 1;
    }
    assert(all.subrange(0, i as int) =~= all);
    Some(out)
}

/// Where the type of one variable cannot be told, there are no parameters.
proof fn lemma_wanted_none(known: Known, want: spec_fn(Name) -> bool, k: int)
    requires
        0 <= k <= known.len(),
        wanted_params(known.subrange(0, k), want) is None,
    ensures
        wanted_params(known, want) is None,
    decreases known.len(),
{
    if k == known.len() {
        assert(known.subrange(0, k) =~= known);
    } else {
        assert(known.drop_last().subrange(0, k) =~= known.subrange(0, k));
        lemma_wanted_none(known.drop_last(), want, k);
    }
}

/// The variables that the parameters carry.
pub open spec fn param_vars(ps: Seq<Param>) -> Seq<Name> {
    Seq::new(ps.len(), |i: int| ps[i].ssa_value)
}

/// The variables that the parameters carry.
fn vars_of(ps: &Vec<Parameter>) -> (r: Vec<TempId>)
    ensures
        crate::ir::names(r@) == param_vars(Parameter::views(ps@)),
{
    let mut out: Vec<TempId> = Vec::new();
    let mut i: usize = 0;
    while i < ps.len()
        invariant
            i <= ps.len(),
            out@.len() == i,
            forall|j: int| 0 <= j < i ==> (#[trigger] out@[j])@ == ps@[j].ssa_value@,
        decreases ps.len() - i,
    {
        out.push(ps[i].ssa_value.clone());
        i += 1;
    }
    assert(crate::ir::names(out@) =~= param_vars(Parameter::views(ps@)));
    out
}

/// A call with variables as arguments.
pub open spec fn call_on(id: FunctionID, xs: Seq<Name>) -> Node {
    Node::Call { function: id, type_args: Seq::empty(), args: crate::phi_lifting::var_nodes(xs) }
}

/// Builds a call with variables as arguments.
fn build_call(id: FunctionID, xs: &Vec<TempId>) -> (r: IRNode)
    ensures
        r@ == call_on(id, crate::ir::names(xs@)),
{
    let mut args: Vec<IRNode> = Vec::new();
    assert(IRNode::views(args@) =~= Seq::empty());
    crate::phi_lifting::push_vars(&mut args, xs);
    assert(IRNode::views(args@) =~= crate::phi_lifting::var_nodes(crate::ir::names(xs@)));
    let r = IRNode::Call { function: id, type_args: Vec::new(), args };
    assert(Type::views(r->Call_type_args@) =~= Seq::empty());
    r
}

/// Whether each free variable of the expression is in scope.
pub open spec fn names_known(n: Node, known: Known) -> bool {
    forall|x: Name| #[trigger] n.free(x) ==> crate::assoc::found(known, x) is Some
}

/// Whether each free variable of the expression is in scope.
fn all_known(frees: &Vec<TempId>, known: &Vec<(TempId, Option<Type>)>, Ghost(n): Ghost<Node>) -> (r:
    bool)
    requires
        forall|x: Name| #[trigger] crate::ir::names(frees@).contains(x) <==> n.free(x),
    ensures
        r == names_known(n, known_views(known@)),
{
    let ghost fs = crate::ir::names(frees@);
    let ghost kv = known_views(known@);
    let mut i: usize = 0;
    while i < frees.len()
        invariant
            i <= frees.len(),
            fs == crate::ir::names(frees@),
            kv == known_views(known@),
            forall|x: Name| #[trigger] fs.contains(x) <==> n.free(x),
            forall|j: int|
                0 <= j < i ==> crate::assoc::found(kv, #[trigger] fs[j]) is Some,
        decreases frees.len() - i,
    {
        assert(fs[i as int] == frees@[i as int]@);
        assert(fs.contains(fs[i as int]));
        proof {
            crate::cut_types::lemma_known_keys(known@);
        }
        if place_of(known, &frees[i]).is_none() {
            assert(n.free(fs[i as int]));
            return false;
        }
        i += 1;
    }
    assert forall|x: Name| #[trigger] n.free(x) implies crate::assoc::found(kv, x) is Some by {
        assert(fs.contains(x));
        let j = choose|j: int| 0 <= j < fs.len() && fs[j] == x;
        assert(crate::assoc::found(kv, fs[j]) is Some);
    }
    true
}

/// The function that stands for an expression with the given variables.
pub open spec fn cached(atoms: Seq<Named>, n: Node, xs: Seq<Name>) -> Option<FunctionID>
    decreases atoms.len(),
{
    if atoms.len() == 0 {
        None
    } else {
        match cached(atoms.drop_last(), n, xs) {
            Some(id) => Some(id),
            None => if atoms.last().body == n && atoms.last().params == xs {
                Some(atoms.last().id)
            } else {
                None
            },
        }
    }
}

/// The function that stands for an expression with the given variables.
fn find_atom(atoms: &Vec<Atom>, n: &IRNode, xs: &Vec<TempId>) -> (r: Option<FunctionID>)
    ensures
        r == cached(Atom::views(atoms@), n@, crate::ir::names(xs@)),
{
    let ghost all = Atom::views(atoms@);
    let ghost names = crate::ir::names(xs@);
    let mut hit: Option<FunctionID> = None;
    let mut i: usize = 0;
    assert(all.subrange(0, 0) =~= Seq::empty());
    while i < atoms.len()
        invariant
            i <= atoms.len(),
            all == Atom::views(atoms@),
            names == crate::ir::names(xs@),
            hit == cached(all.subrange(0, i as int), n@, names),
        decreases atoms.len() - i,
    {
        let ghost next = all.subrange(0, i + 1);
        assert(next.drop_last() =~= all.subrange(0, i as int));
        assert(next.last() == atoms@[i as int]@);
        if hit.is_none() && atoms[i].body.same(n) && crate::ir::same_names(&atoms[i].params, xs) {
            hit = Some(atoms[i].id);
        }
        i += 1;
    }
    assert(all.subrange(0, i as int) =~= all);
    hit
}

/// A function that was made of an expression.
pub open spec fn made_function(
    w: Whole,
    name: Name,
    ps: Seq<Param>,
    proofs: Seq<Hypothesis>,
    ret: Ty,
    body: Node,
) -> Func {
    Func {
        module_id: w.module_id,
        name,
        signature: Signature {
            type_params: Seq::empty(),
            parameters: ps,
            proof_params: proofs,
            return_type: ret,
        },
        body,
        theorem: None,
        is_native: false,
        mutual_group_id: None,
        is_uninterpreted: false,
    }
}

/// Makes a function of an expression.
fn make_function(
    w: &Parent,
    name: String,
    ps: Vec<Parameter>,
    proofs: Vec<ProofParam>,
    ret: Type,
    body: &IRNode,
) -> (r: Function)
    ensures
        r@ == made_function(
            w@,
            name@,
            Parameter::views(ps@),
            ProofParam::views(proofs@),
            ret@,
            body@,
        ),
{
    let f = Function {
        module_id: w.module_id,
        name,
        signature: FunctionSignature {
            type_params: Vec::new(),
            parameters: ps,
            proof_params: proofs,
            return_type: ret,
        },
        body: body.clone(),
        theorem: None,
        is_native: false,
        mutual_group_id: None,
        is_uninterpreted: false,
    };
    assert(crate::ir::names(f.signature.type_params@) =~= Seq::empty());
    f
}

/// A text with a number behind it.
pub open spec fn numbered(name: Name, kind: Seq<char>, k: nat) -> Name {
    name + kind + crate::text::decimal(k)
}

/// A text with a number behind it.
fn number(name: &String, kind: &str, k: u128) -> (r: String)
    ensures
        r@ == numbered(name@, kind@, k as nat),
{
    append(&append(name, kind), &number_text(k))
}

/// The call that names an expression; none where its variables or its own type
/// cannot be told. An expression that was named before is not named again.
pub open spec fn atom_made(s: St, w: Whole, n: Node, known: Known) -> (Option<Node>, St) {
    match wanted_params(known, |x: Name| n.free(x)) {
        None => (None, s),
        Some(ps) => match crate::cut_types::told_type(n, known, s.p) {
            Some(ret) if names_known(n, known) => match cached(s.atoms, n, param_vars(ps)) {
                Some(id) => (Some(call_on(id, param_vars(ps))), s),
                None => match fresh_id(s.p) {
                    Some(id) => (
                        Some(call_on(id, param_vars(ps))),
                        St {
                            p: with_function(
                                s.p,
                                id,
                                made_function(
                                    w,
                                    numbered(w.name, ".atom_"@, s.atoms.len() + 1),
                                    ps,
                                    Seq::empty(),
                                    ret,
                                    n,
                                ),
                            ),
                            atoms: s.atoms.push(Named { body: n, params: param_vars(ps), id }),
                            ..s
                        },
                    ),
                    None => (None, s),
                },
            },
            _ => (None, s),
        },
    }
}

impl Session {
    /// Names an expression.
    fn make_atom(&mut self, w: &Parent, n: &IRNode, known: &Vec<(TempId, Option<Type>)>) -> (r:
        Option<IRNode>)
        ensures
            (crate::substitution::optional_node(r), final(self)@) == atom_made(
                old(self)@,
                w@,
                n@,
                known_views(known@),
            ),
    {
        let ghost s = self@;
        let ghost kv = known_views(known@);
        let frees = free_vars(n);
        let ghost want = |x: Name| n@.free(x);
        let ps = match select_params(known, &frees, Ghost(want)) {
            Some(ps) => ps,
            None => {
                return None;
            },
        };
        let ghost pv = Parameter::views(ps@);
        if !all_known(&frees, known, Ghost(n@)) {
            return None;
        }
        let ret = match try_type(n, known, &self.program) {
            Some(t) => t,
            None => {
                return None;
            },
        };
        let xs = vars_of(&ps);
        match find_atom(&self.atoms, n, &xs) {
            Some(id) => Some(build_call(id, &xs)),
            None => match next_id(&self.program) {
                Some(id) => {
                    assert(s.atoms.len() == self.atoms@.len());
                    let k: u128 = self.atoms.len() as u128 + 1;
                    let name = number(&w.name, ".atom_", k);
                    let call = build_call(id, &xs);
                    let proofs: Vec<ProofParam> = Vec::new();
                    assert(ProofParam::views(proofs@) =~= Seq::empty());
                    let f = make_function(w, name, ps, proofs, ret, n);
                    self.add_function(id, f);
                    let ghost before = self@.atoms;
                    let atom = Atom { body: n.clone(), params: xs, id };
                    self.atoms.push(atom);
                    assert(self@.atoms =~= before.push(atom@));
                    Some(call)
                },
                None => None,
            },
        }
    }
}

/// Whether the expression computes a value: neither a bare variable or literal, nor an
/// option, a proposition, a placeholder or a step on a mutable reference.
pub open spec fn computes_value(n: Node) -> bool {
    match n {
        Node::BinOp { .. } => true,
        Node::UnOp { .. } => true,
        Node::BitOp(_) => true,
        Node::Call { .. } => true,
        Node::Pack { .. } => true,
        Node::Field { .. } => true,
        Node::Unpack { .. } => true,
        Node::Tuple(_) => true,
        Node::Let { .. } => true,
        Node::If { .. } => true,
        Node::Match { .. } => true,
        Node::UpdateField { .. } => true,
        Node::UpdateVec { .. } => true,
        Node::ReadRef(_) => true,
        Node::ToBool(_) => true,
        Node::ArithOverflowCheck { .. } => true,
        _ => false,
    }
}

/// Whether the expression has to stay where it stands.
pub open spec fn is_placed(n: Node) -> bool {
    n is Abort || n is WriteBack || n is MutableCompose
}

/// Whether the expression is worth a name of its own: it computes a value, and nothing
/// inside has to stay where it stands.
pub open spec fn is_nameable(n: Node) -> bool {
    computes_value(n) && !n.any(|m: Node| is_placed(m))
}

/// The test for an expression that has to stay where it stands.
struct Placed;

impl Test for Placed {
    closed spec fn holds(&self, n: Node) -> bool {
        is_placed(n)
    }

    fn check(&self, n: &IRNode) -> (r: bool) {
        match n {
            IRNode::Abort { .. } => true,
            IRNode::WriteBack { .. } => true,
            IRNode::MutableCompose { .. } => true,
            _ => false,
        }
    }
}

/// Whether the expression computes a value.
fn is_computed(node: &IRNode) -> (r: bool)
    ensures
        r == computes_value(node@),
{
    match node {
        IRNode::BinOp { .. } => true,
        IRNode::UnOp { .. } => true,
        IRNode::BitOp(_) => true,
        IRNode::Call { .. } => true,
        IRNode::Pack { .. } => true,
        IRNode::Field { .. } => true,
        IRNode::Unpack { .. } => true,
        IRNode::Tuple(_) => true,
        IRNode::Let { .. } => true,
        IRNode::If { .. } => true,
        IRNode::Match { .. } => true,
        IRNode::UpdateField { .. } => true,
        IRNode::UpdateVec { .. } => true,
        IRNode::ReadRef(_) => true,
        IRNode::ToBool(_) => true,
        IRNode::ArithOverflowCheck { .. } => true,
        _ => false,
    }
}

/// Whether the expression is worth a name of its own.
pub fn is_atomizable(node: &IRNode) -> (r: bool)
    ensures
        r == is_nameable(node@),
{
    let t = Placed;
    assert((|n: Node| t.holds(n)) =~= (|n: Node| is_placed(n)));
    is_computed(node) && !any_node(node, &t)
}

/// From this length on an expression gets a name.
pub const ATOM_MIN: usize = 250;

/// The longest value that is written out at each place of its variable.
pub const SUBST_MAX: usize = 6000;

/// A side of a branch, named where it is long.
pub open spec fn named_side(
    s: St,
    w: Whole,
    n: Node,
    known: Known,
    arith: Subst,
) -> (Node, St) {
    let long = crate::substitution::inlined(n, arith);
    if crate::sizes::text_len(long) >= ATOM_MIN {
        let (call, s1) = atom_made(s, w, long, known);
        match call {
            Some(c) => (c, s1),
            None => (n, s1),
        }
    } else {
        (n, s)
    }
}

/// The value of a binding, named where it is long; a branch keeps its condition, and
/// its sides are named. Also the values of the variables behind it.
pub open spec fn named_value(
    s: St,
    w: Whole,
    pattern: Seq<Name>,
    value: Node,
    known: Known,
    arith: Subst,
) -> (Node, St, Subst) {
    if pattern.len() == 1 && is_nameable(value) {
        let long = crate::substitution::inlined(value, arith);
        let (v, s2) = if crate::sizes::text_len(long) >= ATOM_MIN {
            match value {
                Node::If { cond, then_branch, else_branch } => {
                    let (t, s1) = named_side(s, w, *then_branch, known, arith);
                    let (e, s2) = named_side(s1, w, *else_branch, known, arith);
                    (
                        Node::If {
                            cond,
                            then_branch: Box::new(t),
                            else_branch: Box::new(e),
                        },
                        s2,
                    )
                },
                _ => {
                    let (call, s1) = atom_made(s, w, long, known);
                    match call {
                        Some(c) => (c, s1),
                        None => (value, s1),
                    }
                },
            }
        } else {
            (value, s)
        };
        (
            v,
            s2,
            if crate::sizes::text_len(long) <= 4 * SUBST_MAX {
                crate::assoc::put(arith, pattern[0], Some(long))
            } else {
                arith
            },
        )
    } else {
        (value, s, arith)
    }
}

impl Session {
    /// Names a side of a branch where it is long.
    fn name_side(
        &mut self,
        w: &Parent,
        n: &IRNode,
        known: &Vec<(TempId, Option<Type>)>,
        arith: &Vec<(TempId, Option<IRNode>)>,
    ) -> (r: IRNode)
        ensures
            (r@, final(self)@) == named_side(
                old(self)@,
                w@,
                n@,
                known_views(known@),
                subst_views(arith@),
            ),
    {
        let long = subst_exprs(n, arith);
        if approx_size(&long) >= ATOM_MIN {
            match self.make_atom(w, &long, known) {
                Some(c) => c,
                None => n.clone(),
            }
        } else {
            n.clone()
        }
    }

    /// Names the value of a binding where it is long.
    fn name_value(
        &mut self,
        w: &Parent,
        pattern: &Vec<TempId>,
        value: &IRNode,
        known: &Vec<(TempId, Option<Type>)>,
        arith: &mut Vec<(TempId, Option<IRNode>)>,
    ) -> (r: IRNode)
        ensures
            (r@, final(self)@, subst_views(final(arith)@)) == named_value(
                old(self)@,
                w@,
                crate::ir::names(pattern@),
                value@,
                known_views(known@),
                subst_views(old(arith)@),
            ),
    {
        assert(crate::ir::names(pattern@).len() == pattern@.len());
        if pattern.len() != 1 || !is_atomizable(value) {
            return value.clone();
        }
        assert(crate::ir::names(pattern@)[0] == pattern@[0]@);
        let long = subst_exprs(value, arith);
        let size = approx_size(&long);
        let v = if size >= ATOM_MIN {
            match value {
                IRNode::If { cond, then_branch, else_branch } => {
                    let t = self.name_side(w, then_branch, known, arith);
                    let e = self.name_side(w, else_branch, known, arith);
                    IRNode::If {
                        cond: Box::new((**cond).clone()),
                        then_branch: Box::new(t),
                        else_branch: Box::new(e),
                    }
                },
                _ => match self.make_atom(w, &long, known) {
                    Some(c) => c,
                    None => value.clone(),
                },
            }
        } else {
            value.clone()
        };
        if size <= 4 * SUBST_MAX {
            put_subst(arith, &pattern[0], Some(long));
        }
        v
    }
}

/// The expression with its long values named, along its bindings, checks and final
/// branches; and where the cutting then stands.
pub open spec fn hoisted(n: Node, s: St, w: Whole, known: Known, arith: Subst) -> (Node, St)
    decreases n,
{
    match n {
        Node::Let { pattern, value, body } => {
            let (v, s1, arith1) = named_value(s, w, pattern, *value, known, arith);
            let known1 = crate::cut_types::behind(
                known,
                pattern,
                crate::cut_types::told_type(v, known, s1.p),
            );
            let (b, s2) = hoisted(*body, s1, w, known1, arith1);
            (Node::Let { pattern, value: Box::new(v), body: Box::new(b) }, s2)
        },
        Node::MatchOption { scrutinee, binding, some_branch, none_branch } => {
            let (c, s1) = if *scrutinee is Let || *scrutinee is MatchOption || *scrutinee is If {
                hoisted(*scrutinee, s, w, known, Seq::empty())
            } else {
                (*scrutinee, s)
            };
            let (b, s2) = hoisted(*none_branch, s1, w, known, arith);
            (
                Node::MatchOption {
                    scrutinee: Box::new(c),
                    binding,
                    some_branch,
                    none_branch: Box::new(b),
                },
                s2,
            )
        },
        Node::If { cond, then_branch, else_branch } => {
            let (t, s1) = hoisted(*then_branch, s, w, known, Seq::empty());
            let (e, s2) = hoisted(*else_branch, s1, w, known, Seq::empty());
            (Node::If { cond, then_branch: Box::new(t), else_branch: Box::new(e) }, s2)
        },
        _ => (n, s),
    }
}

impl Session {
    /// Names the long values of an expression, behind the given variables.
    fn hoist_on(
        &mut self,
        w: &Parent,
        node: &IRNode,
        known: &Vec<(TempId, Option<Type>)>,
        arith: &mut Vec<(TempId, Option<IRNode>)>,
    ) -> (r: IRNode)
        ensures
            (r@, final(self)@) == hoisted(
                node@,
                old(self)@,
                w@,
                known_views(known@),
                subst_views(old(arith)@),
            ),
        decreases node, 0nat,
    {
        match node {
            IRNode::Let { pattern, value, body } => {
                let v = self.name_value(w, pattern, value, known, arith);
                let t = try_type(&v, known, &self.program);
                let mut inner = clone_known(known);
                register_pattern(&mut inner, pattern, &t);
                let b = self.hoist_on(w, body, &inner, arith);
                IRNode::Let {
                    pattern: clone_names(pattern),
                    value: Box::new(v),
                    body: Box::new(b),
                }
            },
            IRNode::MatchOption { scrutinee, binding, some_branch, none_branch } => {
                let spine = match &**scrutinee {
                    IRNode::Let { .. } => true,
                    IRNode::MatchOption { .. } => true,
                    IRNode::If { .. } => true,
                    _ => false,
                };
                assert(spine == ((*scrutinee)@ is Let || (*scrutinee)@ is MatchOption
                    || (*scrutinee)@ is If));
                let c = if spine {
                    self.hoist_atoms(w, scrutinee, known)
                } else {
                    (**scrutinee).clone()
                };
                let b = self.hoist_on(w, none_branch, known, arith);
                IRNode::MatchOption {
                    scrutinee: Box::new(c),
                    binding: binding.clone(),
                    some_branch: Box::new((**some_branch).clone()),
                    none_branch: Box::new(b),
                }
            },
            IRNode::If { cond, then_branch, else_branch } => {
                let t = self.hoist_atoms(w, then_branch, known);
                let e = self.hoist_atoms(w, else_branch, known);
                IRNode::If {
                    cond: Box::new((**cond).clone()),
                    then_branch: Box::new(t),
                    else_branch: Box::new(e),
                }
            },
            _ => node.clone(),
        }
    }

    /// Names the long values of an expression.
    pub fn hoist_atoms(
        &mut self,
        w: &Parent,
        node: &IRNode,
        known: &Vec<(TempId, Option<Type>)>,
    ) -> (r: IRNode)
        ensures
            (r@, final(self)@) == hoisted(
                node@,
                old(self)@,
                w@,
                known_views(known@),
                Seq::empty(),
            ),
        decreases node, 1nat,
    {
        let mut arith: Vec<(TempId, Option<IRNode>)> = Vec::new();
        assert(subst_views(arith@) =~= Seq::empty());
        self.hoist_on(w, node, known, &mut arith)
    }
}

/// Whether a proof parameter has the name.
pub open spec fn is_proof_name(w: Whole, x: Name) -> bool {
    exists|i: int| 0 <= i < w.proof_params.len() && (#[trigger] w.proof_params[i]).name == x
}

/// Whether a proof parameter has the name.
pub fn has_proof_name(w: &Parent, x: &TempId) -> (r: bool)
    ensures
        r == is_proof_name(w@, x@),
{
    let ghost all = w@.proof_params;
    let mut i: usize = 0;
    while i < w.proof_params.len()
        invariant
            i <= w.proof_params.len(),
            all == ProofParam::views(w.proof_params@),
            forall|j: int| 0 <= j < i ==> (#[trigger] all[j]).name != x@,
        decreases w.proof_params.len() - i,
    {
        assert(all[i as int] == w.proof_params@[i as int]@);
        if w.proof_params[i].name == *x {
            return true;
        }
        i += 1;
    }
    false
}

/// Whether what a proof parameter states mentions the parameter.
pub open spec fn text_mentions(h: Hypothesis, q: Param) -> bool {
    match h.param_type {
        PropText::Verbatim(t) => crate::idents::mentions(t, q.ssa_value),
        PropText::DataInvWorld { parent_expr } => crate::idents::mentions(parent_expr, q.ssa_value)
            || q.name == "__world"@,
        PropText::DataInv { .. } => false,
    }
}

/// Whether what a proof parameter states mentions the parameter.
fn mentions_param(h: &ProofParam, q: &Parameter) -> (r: bool)
    ensures
        r == text_mentions(h@, q@),
{
    match &h.param_type {
        ProofParamType::Verbatim(t) => mentions_ident(t, &q.ssa_value),
        ProofParamType::DataInvWorld { parent_expr } => mentions_ident(parent_expr, &q.ssa_value)
            || is_text(&q.name, "__world"),
        ProofParamType::DataInv { .. } => false,
    }
}

/// The proof parameters that an expression mentions.
pub open spec fn proofs_of(ps: Seq<Hypothesis>, n: Node) -> Seq<Hypothesis>
    decreases ps.len(),
{
    if ps.len() == 0 {
        Seq::empty()
    } else if n.free(ps.last().name) {
        proofs_of(ps.drop_last(), n).push(ps.last())
    } else {
        proofs_of(ps.drop_last(), n)
    }
}

/// Whether one of the proof parameters mentions the variable.
pub open spec fn mentioned(hs: Seq<Hypothesis>, params: Seq<Param>, x: Name) -> bool {
    exists|i: int, j: int|
        0 <= i < hs.len() && 0 <= j < params.len() && #[trigger] text_mentions(hs[i], params[j])
            && params[j].ssa_value == x
}

/// Whether a segment of the expression needs the variable as a parameter: it stands
/// in the expression, or a proof parameter that does mentions it.
pub open spec fn needed(w: Whole, n: Node) -> spec_fn(Name) -> bool {
    |x: Name|
        (n.free(x) && !is_proof_name(w, x)) || mentioned(
            proofs_of(w.proof_params, n),
            w.params,
            x,
        )
}

/// The proof parameters that an expression mentions.
fn select_proofs(w: &Parent, n: &IRNode, frees: &Vec<TempId>) -> (r: Vec<ProofParam>)
    requires
        forall|x: Name| #[trigger] crate::ir::names(frees@).contains(x) <==> n@.free(x),
    ensures
        ProofParam::views(r@) == proofs_of(w@.proof_params, n@),
{
    let ghost all = w@.proof_params;
    let mut out: Vec<ProofParam> = Vec::new();
    let mut i: usize = 0;
    assert(ProofParam::views(out@) =~= Seq::empty());
    assert(all.subrange(0, 0) =~= Seq::empty());
    while i < w.proof_params.len()
        invariant
            i <= w.proof_params.len(),
            all == ProofParam::views(w.proof_params@),
            forall|x: Name| #[trigger] crate::ir::names(frees@).contains(x) <==> n@.free(x),
            ProofParam::views(out@) == proofs_of(all.subrange(0, i as int), n@),
        decreases w.proof_params.len() - i,
    {
        let ghost next = all.subrange(0, i + 1);
        assert(next.drop_last() =~= all.subrange(0, i as int));
        let h = &w.proof_params[i];
        assert(next.last() == h@);
        let hit = contains_name(frees, &h.name);
        assert(hit == n@.free(h@.name));
        if hit {
            let ghost before = ProofParam::views(out@);
            let copy = h.clone();
            out.push(copy);
            assert(ProofParam::views(out@) =~= before.push(h@));
        }
        i += 1;
    }
    assert(all.subrange(0, i as int) =~= all);
    out
}

/// Adds the variables that a proof parameter mentions.
fn add_mentioned(w: &Parent, h: &ProofParam, out: &mut Vec<TempId>)
    ensures
        forall|x: Name|
            #[trigger] crate::ir::names(final(out)@).contains(x) <==> crate::ir::names(
                old(out)@,
            ).contains(x) || exists|j: int|
                0 <= j < w@.params.len() && #[trigger] text_mentions(h@, w@.params[j])
                    && w@.params[j].ssa_value == x,
{
    let ghost start = crate::ir::names(out@);
    let ghost ps = w@.params;
    let mut j: usize = 0;
    while j < w.params.len()
        invariant
            j <= w.params.len(),
            ps == Parameter::views(w.params@),
            forall|x: Name|
                #[trigger] crate::ir::names(out@).contains(x) <==> start.contains(x) || exists|
                    k: int,
                |
                    0 <= k < j && #[trigger] text_mentions(h@, ps[k]) && ps[k].ssa_value == x,
        decreases w.params.len() - j,
    {
        let q = &w.params[j];
        assert(ps[j as int] == q@);
        let ghost before = crate::ir::names(out@);
        if mentions_param(h, q) {
            push_name(out, &q.ssa_value);
            assert(text_mentions(h@, ps[j as int]));
        }
        assert forall|x: Name|
            #[trigger] crate::ir::names(out@).contains(x) <==> start.contains(x) || exists|k: int|
                0 <= k < j + 1 && #[trigger] text_mentions(h@, ps[k]) && ps[k].ssa_value == x by {
            assert(before.contains(x) <==> start.contains(x) || exists|k: int|
                0 <= k < j && #[trigger] text_mentions(h@, ps[k]) && ps[k].ssa_value == x);
            if crate::ir::names(out@).contains(x) && !before.contains(x) {
                assert(ps[j as int].ssa_value == x);
            }
        }
        j += 1;
    }
}

/// The variables that a segment of the expression needs as parameters.
fn needed_vars(w: &Parent, n: &IRNode, frees: &Vec<TempId>, proofs: &Vec<ProofParam>) -> (r: Vec<
    TempId,
>)
    requires
        forall|x: Name| #[trigger] crate::ir::names(frees@).contains(x) <==> n@.free(x),
        ProofParam::views(proofs@) == proofs_of(w@.proof_params, n@),
    ensures
        forall|x: Name| #[trigger] crate::ir::names(r@).contains(x) <==> needed(w@, n@)(x),
{
    let ghost fs = crate::ir::names(frees@);
    let mut out: Vec<TempId> = Vec::new();
    let mut i: usize = 0;
    while i < frees.len()
        invariant
            i <= frees.len(),
            fs == crate::ir::names(frees@),
            forall|x: Name|
                #[trigger] crate::ir::names(out@).contains(x) <==> (exists|k: int|
                    0 <= k < i && #[trigger] fs[k] == x) && !is_proof_name(w@, x),
        decreases frees.len() - i,
    {
        let ghost before = crate::ir::names(out@);
        assert(fs[i as int] == frees@[i as int]@);
        if !has_proof_name(w, &frees[i]) {
            push_name(&mut out, &frees[i]);
        }
        assert forall|x: Name|
            #[trigger] crate::ir::names(out@).contains(x) <==> (exists|k: int|
                0 <= k < i + 1 && #[trigger] fs[k] == x) && !is_proof_name(w@, x) by {
            assert(before.contains(x) <==> (exists|k: int| 0 <= k < i && #[trigger] fs[k] == x)
                && !is_proof_name(w@, x));
            if crate::ir::names(out@).contains(x) && !before.contains(x) {
                assert(fs[i as int] == x);
            }
        }
        i += 1;
    }
    let ghost own = crate::ir::names(out@);
    assert forall|x: Name| #[trigger] own.contains(x) <==> n@.free(x) && !is_proof_name(w@, x) by {
        assert(fs.contains(x) <==> n@.free(x));
        if fs.contains(x) {
            let k = choose|k: int| 0 <= k < fs.len() && fs[k] == x;
            assert(fs[k] == x);
        }
    }
    let ghost hs = ProofParam::views(proofs@);
    let mut i: usize = 0;
    while i < proofs.len()
        invariant
            i <= proofs.len(),
            hs == ProofParam::views(proofs@),
            forall|x: Name|
                #[trigger] crate::ir::names(out@).contains(x) <==> own.contains(x) || mentioned(
                    hs.subrange(0, i as int),
                    w@.params,
                    x,
                ),
        decreases proofs.len() - i,
    {
        let ghost before = crate::ir::names(out@);
        let ghost done = hs.subrange(0, i as int);
        let ghost next = hs.subrange(0, i + 1);
        assert(next[i as int] == proofs@[i as int]@);
        add_mentioned(w, &proofs[i], &mut out);
        assert forall|x: Name|
            #[trigger] crate::ir::names(out@).contains(x) <==> own.contains(x) || mentioned(
                next,
                w@.params,
                x,
            ) by {
            assert(before.contains(x) <==> own.contains(x) || mentioned(done, w@.params, x));
            if mentioned(done, w@.params, x) {
                let (a, b) = choose|a: int, b: int|
                    0 <= a < done.len() && 0 <= b < w@.params.len() && #[trigger] text_mentions(
                        done[a],
                        w@.params[b],
                    ) && w@.params[b].ssa_value == x;
                assert(text_mentions(next[a], w@.params[b]));
            }
            if exists|b: int|
                0 <= b < w@.params.len() && #[trigger] text_mentions(
                    proofs@[i as int]@,
                    w@.params[b],
                ) && w@.params[b].ssa_value == x {
                let b = choose|b: int|
                    0 <= b < w@.params.len() && #[trigger] text_mentions(
                        proofs@[i as int]@,
                        w@.params[b],
                    ) && w@.params[b].ssa_value == x;
                assert(text_mentions(next[i as int], w@.params[b]));
            }
            if mentioned(next, w@.params, x) {
                let (a, b) = choose|a: int, b: int|
                    0 <= a < next.len() && 0 <= b < w@.params.len() && #[trigger] text_mentions(
                        next[a],
                        w@.params[b],
                    ) && w@.params[b].ssa_value == x;
                if a < i {
                    assert(text_mentions(done[a], w@.params[b]));
                } else {
                    assert(text_mentions(proofs@[i as int]@, w@.params[b]));
                }
            }
        }
        i += 1;
    }
    assert(hs.subrange(0, i as int) =~= hs);
    out
}

/// Whether each free variable of the expression is in scope or a proof parameter.
pub open spec fn covered(w: Whole, n: Node, known: Known) -> bool {
    forall|x: Name|
        #[trigger] n.free(x) ==> is_proof_name(w, x) || crate::assoc::found(known, x) is Some
}

/// The segment made of an expression; none where the type of a variable that it
/// needs cannot be told.
pub open spec fn segment_made(s: St, w: Whole, n: Node, known: Known) -> (Option<FunctionID>, St) {
    match wanted_params(known, needed(w, n)) {
        Some(ps) if covered(w, n, known) => match fresh_id(s.p) {
            Some(id) => (
                Some(id),
                St {
                    p: with_function(
                        s.p,
                        id,
                        made_function(
                            w,
                            numbered(w.name, ".seg_"@, s.created.len() + 1),
                            ps,
                            proofs_of(w.proof_params, n),
                            w.return_type,
                            n,
                        ),
                    ),
                    created: s.created.push(id),
                    ..s
                },
            ),
            None => (None, s),
        },
        _ => (None, s),
    }
}

/// Whether each free variable of the expression is in scope or a proof parameter.
fn all_covered(
    w: &Parent,
    frees: &Vec<TempId>,
    known: &Vec<(TempId, Option<Type>)>,
    Ghost(n): Ghost<Node>,
) -> (r: bool)
    requires
        forall|x: Name| #[trigger] crate::ir::names(frees@).contains(x) <==> n.free(x),
    ensures
        r == covered(w@, n, known_views(known@)),
{
    let ghost fs = crate::ir::names(frees@);
    let ghost kv = known_views(known@);
    let mut i: usize = 0;
    while i < frees.len()
        invariant
            i <= frees.len(),
            fs == crate::ir::names(frees@),
            kv == known_views(known@),
            forall|x: Name| #[trigger] fs.contains(x) <==> n.free(x),
            forall|j: int|
                0 <= j < i ==> is_proof_name(w@, #[trigger] fs[j]) || crate::assoc::found(
                    kv,
                    fs[j],
                ) is Some,
        decreases frees.len() - i,
    {
        assert(fs[i as int] == frees@[i as int]@);
        assert(fs.contains(fs[i as int]));
        proof {
            crate::cut_types::lemma_known_keys(known@);
        }
        if !has_proof_name(w, &frees[i]) && place_of(known, &frees[i]).is_none() {
            assert(n.free(fs[i as int]));
            return false;
        }
        i += 1;
    }
    assert forall|x: Name| #[trigger] n.free(x) implies is_proof_name(w@, x)
        || crate::assoc::found(kv, x) is Some by {
        assert(fs.contains(x));
        let j = choose|j: int| 0 <= j < fs.len() && fs[j] == x;
        assert(is_proof_name(w@, fs[j]) || crate::assoc::found(kv, fs[j]) is Some);
    }
    true
}

impl Session {
    /// Makes a segment of an expression.
    pub fn create_segment(
        &mut self,
        w: &Parent,
        n: &IRNode,
        known: &Vec<(TempId, Option<Type>)>,
    ) -> (r: Option<FunctionID>)
        ensures
            (r, final(self)@) == segment_made(old(self)@, w@, n@, known_views(known@)),
    {
        let ghost s = self@;
        let frees = free_vars(n);
        let proofs = select_proofs(w, n, &frees);
        let wanted = needed_vars(w, n, &frees, &proofs);
        let ps = match select_params(known, &wanted, Ghost(needed(w@, n@))) {
            Some(ps) => ps,
            None => {
                return None;
            },
        };
        if !all_covered(w, &frees, known, Ghost(n@)) {
            return None;
        }
        match next_id(&self.program) {
            Some(id) => {
                let k: u128 = self.created.len() as u128 + 1;
                let name = number(&w.name, ".seg_", k);
                let f = make_function(w, name, ps, proofs, w.return_type.clone(), n);
                self.add_function(id, f);
                self.created.push(id);
                Some(id)
            },
            None => None,
        }
    }
}

/// The names of the proof parameters.
pub open spec fn proof_names(hs: Seq<Hypothesis>) -> Seq<Name> {
    Seq::new(hs.len(), |i: int| hs[i].name)
}

/// The call of a segment with its own parameters.
pub open spec fn segment_call(p: Prog, id: FunctionID) -> Node {
    let f = p.func(id);
    call_on(
        id,
        if p.has(id) {
            param_vars(f.signature.parameters) + proof_names(f.signature.proof_params)
        } else {
            Seq::empty()
        },
    )
}

/// The names of the proof parameters.
pub fn names_of_proofs(hs: &Vec<ProofParam>) -> (r: Vec<TempId>)
    ensures
        crate::ir::names(r@) == proof_names(ProofParam::views(hs@)),
{
    let mut out: Vec<TempId> = Vec::new();
    let mut i: usize = 0;
    while i < hs.len()
        invariant
            i <= hs.len(),
            out@.len() == i,
            forall|j: int| 0 <= j < i ==> (#[trigger] out@[j])@ == hs@[j].name@,
        decreases hs.len() - i,
    {
        out.push(hs[i].name.clone());
        i += 1;
    }
    assert(crate::ir::names(out@) =~= proof_names(ProofParam::views(hs@)));
    out
}

/// The call of a segment with its own parameters.
pub fn seg_call(program: &Program, id: FunctionID) -> (r: IRNode)
    ensures
        r@ == segment_call(program@, id),
{
    match program.function_slot(id) {
        Some(k) => {
            let f = &program.functions[k].1;
            let xs = crate::ghost_threading::join_names(
                vars_of(&f.signature.parameters),
                &names_of_proofs(&f.signature.proof_params),
            );
            build_call(id, &xs)
        },
        None => {
            let xs: Vec<TempId> = Vec::new();
            assert(crate::ir::names(xs@) =~= Seq::empty());
            build_call(id, &xs)
        },
    }
}

} // verus!
