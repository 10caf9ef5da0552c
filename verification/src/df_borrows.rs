//! Mutable borrows of dynamic fields: a call that borrows one becomes a borrow of
//! the entry in the typed map of the structure that owns it.

use crate::assoc::place_of;
use crate::ir::{clone_names, IRNode, Node};
use crate::program::{Param, Parameter};
use crate::typed_maps::{
    entries_in, lookup_df_entry, struct_id_of, types_of_map, DfFieldEntry, Entry, FieldMap,
    TypedMapFunctions,
};
use crate::types::{clone_types, FunctionID, Name, StructID, TempId, Ty, Type};
use vstd::prelude::*;

verus! {

/// What a variable that borrows the identity of a structure stands for: the
/// structure, the expression for it, and the type of what is borrowed from.
#[derive(Debug)]
pub struct Owned {
    pub struct_id: StructID,
    pub parent: IRNode,
    pub state: Type,
}

/// What an [`Owned`] holds.
pub struct Owner {
    pub struct_id: StructID,
    pub parent: Node,
    pub state: Ty,
}

/// The variables that borrow the identity of a structure.
pub type Owners = Seq<(Name, Owner)>;

impl Owned {
    /// What the value holds.
    pub open spec fn view(&self) -> Owner {
        Owner { struct_id: self.struct_id, parent: self.parent@, state: self.state@ }
    }
}

impl Clone for Owned {
    fn clone(&self) -> (r: Self)
        ensures
            r@ == self@,
    {
        Owned {
            struct_id: self.struct_id,
            parent: self.parent.clone(),
            state: self.state.clone(),
        }
    }
}

/// What an owner that may be absent holds.
pub open spec fn optional_owner(w: Option<Owned>) -> Option<Owner> {
    match w {
        Some(w) => Some(w@),
        None => None,
    }
}

/// What an executable list of owners holds.
pub open spec fn owner_views(s: Seq<(TempId, Owned)>) -> Owners {
    Seq::new(s.len(), |i: int| (s[i].0@, s[i].1@))
}

/// Gives a variable an owner.
fn put_owner(s: &mut Vec<(TempId, Owned)>, x: &TempId, w: Owned)
    ensures
        owner_views(final(s)@) == crate::assoc::put(owner_views(old(s)@), x@, w@),
{
    let ghost before = owner_views(s@);
    assert(crate::assoc::key_views(s@) =~= crate::assoc::keys(before));
    match place_of(s, x) {
        Some(i) => {
            s[i] = (x.clone(), w);
            assert(owner_views(s@) =~= before.update(i as int, (x@, w@)));
        },
        None => {
            s.push((x.clone(), w));
            assert(owner_views(s@) =~= before.push((x@, w@)));
        },
    }
}

/// A copy of a list of owners.
fn clone_owners(s: &Vec<(TempId, Owned)>) -> (r: Vec<(TempId, Owned)>)
    ensures
        owner_views(r@) == owner_views(s@),
{
    let mut out: Vec<(TempId, Owned)> = Vec::new();
    let mut i: usize = 0;
    while i < s.len()
        invariant
            i <= s.len(),
            out@.len() == i,
            forall|j: int| #![trigger out@[j]]
                0 <= j < i ==> out@[j].0@ == s@[j].0@ && out@[j].1@ == s@[j].1@,
        decreases s.len() - i,
    {
        out.push((s[i].0.clone(), s[i].1.clone()));
        i += 1;
    }
    assert(owner_views(out@) =~= owner_views(s@));
    out
}

/// What the rewriting of borrows works with: the function that borrows, the fields
/// that hold dynamic fields, and the functions of the map.
pub struct Borrows {
    pub borrow_mut: FunctionID,
    pub map: FieldMap,
    pub tm: TypedMapFunctions,
}

/// The executable [`Borrows`].
pub struct BorrowContext<'a> {
    pub borrow_mut: FunctionID,
    pub map: &'a Vec<(StructID, Vec<DfFieldEntry>)>,
    pub tm: TypedMapFunctions,
}

impl<'a> BorrowContext<'a> {
    /// What the context holds.
    pub open spec fn view(&self) -> Borrows {
        Borrows {
            borrow_mut: self.borrow_mut,
            map: crate::typed_maps::map_views(self.map@),
            tm: self.tm,
        }
    }
}

/// The owner that a mutable borrow of a structure's identity, its first field,
/// borrows from.
pub open spec fn identity_owner(n: Node) -> Option<Owner> {
    match n {
        Node::MutableBorrow { val_expr, state_type, .. } => match *val_expr {
            Node::Field { struct_id, field_index, base } => if field_index == 0 {
                Some(Owner { struct_id, parent: *base, state: state_type })
            } else {
                None
            },
            _ => None,
        },
        _ => None,
    }
}

/// The owner that a mutable borrow of a structure's identity borrows from.
fn find_identity_owner(n: &IRNode) -> (r: Option<Owned>)
    ensures
        optional_owner(r) == identity_owner(n@),
{
    proof {
        reveal_with_fuel(IRNode::view, 2);
    }
    match n {
        IRNode::MutableBorrow { val_expr, state_type, .. } => match &**val_expr {
            IRNode::Field { struct_id, field_index, base } => if *field_index == 0 {
                Some(
                    Owned {
                        struct_id: *struct_id,
                        parent: (**base).clone(),
                        state: state_type.clone(),
                    },
                )
            } else {
                None
            },
            _ => None,
        },
        _ => None,
    }
}

/// The owner that the argument of a call stands for: it borrows the identity, or
/// is a variable that does.
pub open spec fn arg_owner(n: Node, ws: Owners) -> Option<Owner> {
    match n {
        Node::Var(x) => crate::assoc::found(ws, x),
        _ => identity_owner(n),
    }
}

/// The owner that the argument of a call stands for.
fn extract_mutable_borrow_uid(n: &IRNode, ws: &Vec<(TempId, Owned)>) -> (r: Option<Owned>)
    ensures
        optional_owner(r) == arg_owner(n@, owner_views(ws@)),
{
    assert(crate::assoc::key_views(ws@) =~= crate::assoc::keys(owner_views(ws@)));
    match n {
        IRNode::Var(x) => match place_of(ws, x) {
            Some(i) => Some(ws[i].1.clone()),
            None => None,
        },
        _ => find_identity_owner(n),
    }
}

/// Whether the expression puts the variable back as the identity of the structure.
pub open spec fn restores_identity(v: Node, x: Name, id: StructID) -> bool {
    match v {
        Node::UpdateField { struct_id, field_index, value, .. } => struct_id == id && field_index
            == 0 && *value == Node::Var(x),
        _ => false,
    }
}

/// Whether the expression puts the variable back as the identity of the structure.
pub fn does_restore_identity(v: &IRNode, x: &TempId, id: StructID) -> (r: bool)
    ensures
        r == restores_identity(v@, x@, id),
{
    match v {
        IRNode::UpdateField { struct_id, field_index, value, .. } => {
            let own = match &**value {
                IRNode::Var(y) => *y == *x,
                _ => false,
            };
            assert(own == ((*value)@ == Node::Var(x@)));
            *struct_id == id && *field_index == 0 && own
        },
        _ => false,
    }
}

/// The expression without the bindings that put the variable back as the identity
/// of the structure.
pub open spec fn unrestored(n: Node, x: Name, id: StructID) -> Node
    decreases n,
{
    match n {
        Node::Let { pattern, value, body } => if restores_identity(*value, x, id) {
            unrestored(*body, x, id)
        } else {
            Node::Let { pattern, value, body: Box::new(unrestored(*body, x, id)) }
        },
        Node::If { cond, then_branch, else_branch } => Node::If {
            cond,
            then_branch: Box::new(unrestored(*then_branch, x, id)),
            else_branch: Box::new(unrestored(*else_branch, x, id)),
        },
        _ => n,
    }
}

/// Taking bindings out leaves a walk less to reach.
proof fn lemma_unrestored_lighter(n: Node, x: Name, id: StructID)
    ensures
        unrestored(n, x, id).load() <= n.load(),
    decreases n,
{
    match n {
        Node::Let { pattern, value, body } => {
            lemma_unrestored_lighter(*body, x, id);
            if restores_identity(*value, x, id) {
                n.lemma_load_kid(1);
            } else {
                unrestored(n, x, id).lemma_load_lighter(n);
            }
        },
        Node::If { cond, then_branch, else_branch } => {
            lemma_unrestored_lighter(*then_branch, x, id);
            lemma_unrestored_lighter(*else_branch, x, id);
            unrestored(n, x, id).lemma_load_lighter(n);
        },
        _ => {},
    }
}

/// Takes out the bindings that put the variable back as the identity of the
/// structure.
fn strip_uid_reconstruction(node: &IRNode, x: &TempId, id: StructID) -> (r: IRNode)
    ensures
        r@ == unrestored(node@, x@, id),
    decreases node@,
{
    match node {
        IRNode::Let { pattern, value, body } => {
            let rest = strip_uid_reconstruction(body, x, id);
            if does_restore_identity(value, x, id) {
                rest
            } else {
                IRNode::Let {
                    pattern: clone_names(pattern),
                    value: value.clone(),
                    body: Box::new(rest),
                }
            }
        },
        IRNode::If { cond, then_branch, else_branch } => IRNode::If {
            cond: cond.clone(),
            then_branch: Box::new(strip_uid_reconstruction(then_branch, x, id)),
            else_branch: Box::new(strip_uid_reconstruction(else_branch, x, id)),
        },
        _ => node.clone(),
    }
}

/// A field of an expression.
pub open spec fn field_of(struct_id: StructID, field_index: usize, base: Node) -> Node {
    Node::Field { struct_id, field_index, base: Box::new(base) }
}

/// The borrow of an entry of the typed map: its value, and the owner with the
/// value `__v` in the entry.
pub open spec fn entry_borrow(
    tm: TypedMapFunctions,
    e: Entry,
    w: Owner,
    types: Seq<Ty>,
    key: Node,
) -> Node {
    let map = field_of(w.struct_id, e.field_index, w.parent);
    Node::MutableBorrow {
        val_expr: Box::new(
            Node::Call { function: tm.get_id, type_args: types, args: seq![map, key] },
        ),
        reconstruct_param: "__v"@,
        reconstruct_expr: Box::new(
            Node::UpdateField {
                base: Box::new(w.parent),
                struct_id: w.struct_id,
                field_index: e.field_index,
                value: Box::new(
                    Node::Call {
                        function: tm.set_id,
                        type_args: types,
                        args: seq![map, key, Node::Var("__v"@)],
                    },
                ),
            },
        ),
        state_type: w.state,
    }
}

/// The borrow of an entry of the typed map.
fn make_entry_borrow(
    tm: &TypedMapFunctions,
    e: &DfFieldEntry,
    w: &Owned,
    types: Vec<Type>,
    key: &IRNode,
) -> (r: IRNode)
    ensures
        r@ == entry_borrow(*tm, e@, w@, Type::views(types@), key@),
{
    let ghost map = field_of(w.struct_id, e.field_index, w.parent@);
    let ghost ts = Type::views(types@);
    let read = IRNode::Field {
        struct_id: w.struct_id,
        field_index: e.field_index,
        base: Box::new(w.parent.clone()),
    };
    assert(read@ == map);
    let again = read.clone();
    let mut get_args: Vec<IRNode> = Vec::new();
    get_args.push(read);
    get_args.push(key.clone());
    assert(IRNode::views(get_args@) =~= seq![map, key@]);
    let hole = IRNode::Var("__v".to_owned());
    assert(hole@ == Node::Var("__v"@));
    let mut set_args: Vec<IRNode> = Vec::new();
    set_args.push(again);
    set_args.push(key.clone());
    set_args.push(hole);
    assert(IRNode::views(set_args@) =~= seq![map, key@, Node::Var("__v"@)]);
    let get = IRNode::Call { function: tm.get_id, type_args: clone_types(&types), args: get_args };
    assert(get@ == Node::Call { function: tm.get_id, type_args: ts, args: seq![map, key@] });
    let set = IRNode::Call { function: tm.set_id, type_args: types, args: set_args };
    assert(set@ == Node::Call {
        function: tm.set_id,
        type_args: ts,
        args: seq![map, key@, Node::Var("__v"@)],
    });
    let rebuilt = IRNode::UpdateField {
        base: Box::new(w.parent.clone()),
        struct_id: w.struct_id,
        field_index: e.field_index,
        value: Box::new(set),
    };
    assert(rebuilt@ == Node::UpdateField {
        base: Box::new(w.parent@),
        struct_id: w.struct_id,
        field_index: e.field_index,
        value: Box::new(set@),
    });
    IRNode::MutableBorrow {
        val_expr: Box::new(get),
        reconstruct_param: "__v".to_owned(),
        reconstruct_expr: Box::new(rebuilt),
        state_type: w.state.clone(),
    }
}

/// The owners after a binding: the variable of a borrow of a structure's identity
/// stands for the structure, where that holds dynamic fields.
pub open spec fn owners_noted(n: Node, c: Borrows, ws: Owners) -> Owners {
    match n {
        Node::Let { pattern, value, .. } => match identity_owner(*value) {
            Some(w) => if pattern.len() == 1 && crate::typed_maps::has_fields(c.map, w.struct_id) {
                crate::assoc::put(ws, pattern[0], w)
            } else {
                ws
            },
            None => ws,
        },
        _ => ws,
    }
}

/// The borrow that a binding of a call becomes: the variable that is bound, the
/// borrow, and what follows. A call that binds nothing stays.
pub open spec fn cut_borrow(n: Node, c: Borrows, ws: Owners) -> Option<(Name, Node, Node)> {
    match n {
        Node::Let { pattern, value, body } => match *value {
            Node::Call { function, type_args, args } => if function == c.borrow_mut && args.len()
                >= 2 && pattern.len() > 0 {
                match arg_owner(args[0], ws) {
                    Some(w) => match crate::typed_maps::chosen_entry(
                        c.map,
                        w.struct_id,
                        type_args,
                    ) {
                        Some(e) => Some(
                            (
                                pattern[0],
                                entry_borrow(
                                    c.tm,
                                    e,
                                    w,
                                    crate::typed_maps::map_types(e, type_args),
                                    args[1],
                                ),
                                if pattern.len() > 1 {
                                    unrestored(*body, pattern[1], w.struct_id)
                                } else {
                                    *body
                                },
                            ),
                        ),
                        None => None,
                    },
                    None => None,
                }
            } else {
                None
            },
            _ => None,
        },
        _ => None,
    }
}

/// Whether the rewriting of borrows enters the expression.
pub open spec fn is_entered(n: Node) -> bool {
    n is Let || n is If || n is Match
}

/// What follows a borrow is lighter than the binding.
pub proof fn lemma_cut_lighter(n: Node, c: Borrows, ws: Owners)
    requires
        cut_borrow(n, c, ws) is Some,
    ensures
        (cut_borrow(n, c, ws)->0).2.load() < n.load(),
{
    match n {
        Node::Let { pattern, value, body } => {
            n.lemma_load_kid(1);
            match *value {
                Node::Call { function, type_args, args } => {
                    let w = arg_owner(args[0], ws)->0;
                    lemma_unrestored_lighter(*body, pattern[1], w.struct_id);
                },
                _ => {},
            }
        },
        _ => {},
    }
}

/// The expression with the borrows of dynamic fields as borrows from typed maps,
/// and the owners behind it.
pub open spec fn borrows_rewritten(n: Node, c: Borrows, ws: Owners) -> (Node, Owners)
    decreases n.load(), n.kids().len() + 1,
{
    if !is_entered(n) {
        (n, ws)
    } else {
        let noted = owners_noted(n, c, ws);
        match cut_borrow(n, c, noted) {
            Some((x, borrow, rest)) => {
                proof {
                    lemma_cut_lighter(n, c, noted);
                }
                (
                    Node::Let {
                        pattern: seq![x],
                        value: Box::new(borrow),
                        body: Box::new(borrows_rewritten(rest, c, noted).0),
                    },
                    noted,
                )
            },
            None => {
                let (ks, after) = kid_borrows(n, n.kids().len(), c, noted);
                (n.with_kids(ks), after)
            },
        }
    }
}

/// The first `k` direct subexpressions with their borrows rewritten, one after the
/// other, and the owners behind them.
pub open spec fn kid_borrows(n: Node, k: nat, c: Borrows, ws: Owners) -> (Seq<Node>, Owners)
    decreases n.load(), k,
{
    if k == 0 || k > n.kids().len() || !is_entered(n) {
        (Seq::empty(), ws)
    } else {
        proof {
            n.lemma_load_kid(k - 1);
        }
        let (before, mid) = kid_borrows(n, (k - 1) as nat, c, ws);
        let (kid, after) = borrows_rewritten(n.kids()[k - 1], c, mid);
        (before.push(kid), after)
    }
}

impl<'a> BorrowContext<'a> {
    /// Notes what the variable of a binding stands for.
    fn note(&self, n: &IRNode, ws: &mut Vec<(TempId, Owned)>)
        ensures
            owner_views(final(ws)@) == owners_noted(n@, self@, owner_views(old(ws)@)),
    {
        match n {
            IRNode::Let { pattern, value, .. } => {
                assert(crate::ir::names(pattern@).len() == pattern@.len());
                if let Some(w) = find_identity_owner(value) {
                    if pattern.len() == 1 && entries_in(self.map, w.struct_id).is_some() {
                        assert(crate::ir::names(pattern@)[0] == pattern@[0]@);
                        put_owner(ws, &pattern[0], w);
                    }
                }
            },
            _ => {},
        }
    }

    /// The borrow that a binding of a call becomes.
    fn try_rewrite_borrow_mut_let(&self, n: &IRNode, ws: &Vec<(TempId, Owned)>) -> (r: Option<
        (TempId, IRNode, IRNode),
    >)
        ensures
            match r {
                Some((x, borrow, rest)) => cut_borrow(n@, self@, owner_views(ws@)) == Some(
                    (x@, borrow@, rest@),
                ),
                None => cut_borrow(n@, self@, owner_views(ws@)) is None,
            },
    {
        match n {
            IRNode::Let { pattern, value, body } => {
                let ghost ps = crate::ir::names(pattern@);
                assert(ps.len() == pattern@.len());
                match &**value {
                    IRNode::Call { function, type_args, args } => {
                        assert((*value)@ == Node::Call {
                            function: *function,
                            type_args: Type::views(type_args@),
                            args: IRNode::views(args@),
                        });
                        assert(IRNode::views(args@).len() == args@.len());
                        if *function != self.borrow_mut || args.len() < 2 || pattern.len() == 0 {
                            return None;
                        }
                        assert(IRNode::views(args@)[0] == args@[0]@);
                        assert(IRNode::views(args@)[1] == args@[1]@);
                        assert(ps[0] == pattern@[0]@);
                        let w = match extract_mutable_borrow_uid(&args[0], ws) {
                            Some(w) => w,
                            None => {
                                return None;
                            },
                        };
                        let e = match lookup_df_entry(self.map, w.struct_id, type_args) {
                            Some(e) => e,
                            None => {
                                return None;
                            },
                        };
                        let borrow = make_entry_borrow(
                            &self.tm,
                            e,
                            &w,
                            types_of_map(e, type_args),
                            &args[1],
                        );
                        let rest = if pattern.len() > 1 {
                            assert(ps[1] == pattern@[1]@);
                            strip_uid_reconstruction(body, &pattern[1], w.struct_id)
                        } else {
                            (**body).clone()
                        };
                        Some((pattern[0].clone(), borrow, rest))
                    },
                    _ => None,
                }
            },
            _ => None,
        }
    }

    /// Rewrites the borrows of dynamic fields.
    fn rewrite_borrow_mut_pre_ctx(&self, n: &IRNode, ws: &mut Vec<(TempId, Owned)>) -> (r: IRNode)
        ensures
            (r@, owner_views(final(ws)@)) == borrows_rewritten(n@, self@, owner_views(old(ws)@)),
        decreases n@.load(),
    {
        let entered = match n {
            IRNode::Let { .. } => true,
            IRNode::If { .. } => true,
            IRNode::Match { .. } => true,
            _ => false,
        };
        if !entered {
            return n.clone();
        }
        self.note(n, ws);
        let ghost noted = owner_views(ws@);
        if let Some((x, borrow, rest)) = self.try_rewrite_borrow_mut_let(n, ws) {
            proof {
                lemma_cut_lighter(n@, self@, noted);
            }
            let mut inner = clone_owners(ws);
            let body = self.rewrite_borrow_mut_pre_ctx(&rest, &mut inner);
            let mut pattern: Vec<TempId> = Vec::new();
            pattern.push(x);
            assert(crate::ir::names(pattern@) =~= seq![x@]);
            return IRNode::Let { pattern, value: Box::new(borrow), body: Box::new(body) };
        }
        let ks = n.children();
        let mut out: Vec<IRNode> = Vec::new();
        let mut i: usize = 0;
        assert(IRNode::views(out@) =~= Seq::empty());
        while i < ks.len()
            invariant
                i <= ks.len(),
                is_entered(n@),
                ks@.len() == n@.kids().len(),
                forall|j: int| 0 <= j < ks@.len() ==> (#[trigger] ks@[j])@ == n@.kids()[j],
                (IRNode::views(out@), owner_views(ws@)) == kid_borrows(
                    n@,
                    i as nat,
                    self@,
                    noted,
                ),
                out@.len() == i,
            decreases ks.len() - i,
        {
            assert(ks@[i as int]@ == n@.kids()[i as int]);
            proof {
                n@.lemma_load_kid(i as int);
            }
            let ghost before = out@;
            let kid = self.rewrite_borrow_mut_pre_ctx(ks[i], ws);
            out.push(kid);
            assert(IRNode::views(out@) =~= IRNode::views(before).push(kid@));
            i += 1;
        }
        n.with_children(out)
    }
}

/// The owners that the parameters of a function stand for: those of a structure
/// that holds dynamic fields stand for themselves.
pub open spec fn param_owners(ps: Seq<Param>, map: FieldMap) -> Owners
    decreases ps.len(),
{
    if ps.len() == 0 {
        Seq::empty()
    } else {
        let before = param_owners(ps.drop_last(), map);
        let p = ps.last();
        match crate::typed_maps::struct_named(p.param_type) {
            Some((id, args)) => if crate::typed_maps::has_fields(map, id) {
                crate::assoc::put(
                    before,
                    p.name,
                    Owner {
                        struct_id: id,
                        parent: Node::Var(p.name),
                        state: Ty::Struct { struct_id: id, type_args: args },
                    },
                )
            } else {
                before
            },
            None => before,
        }
    }
}

/// The owners that the parameters of a function stand for.
fn seed_owners(
    params: &Vec<Parameter>,
    map: &Vec<(StructID, Vec<DfFieldEntry>)>,
) -> (r: Vec<(TempId, Owned)>)
    ensures
        owner_views(r@) == param_owners(
            Parameter::views(params@),
            crate::typed_maps::map_views(map@),
        ),
{
    let ghost ps = Parameter::views(params@);
    let mut out: Vec<(TempId, Owned)> = Vec::new();
    let mut i: usize = 0;
    assert(ps.subrange(0, 0) =~= Seq::empty());
    assert(owner_views(out@) =~= Seq::empty());
    while i < params.len()
        invariant
            i <= params.len(),
            ps == Parameter::views(params@),
            owner_views(out@) == param_owners(
                ps.subrange(0, i as int),
                crate::typed_maps::map_views(map@),
            ),
        decreases params.len() - i,
    {
        let ghost next = ps.subrange(0, i + 1);
        assert(next.drop_last() =~= ps.subrange(0, i as int));
        assert(next.last() == params@[i as int]@);
        if let Some((id, args)) = struct_id_of(&params[i].param_type) {
            if entries_in(map, id).is_some() {
                let parent = IRNode::Var(params[i].name.clone());
                let state = Type::Struct { struct_id: id, type_args: clone_types(args) };
                put_owner(&mut out, &params[i].name, Owned { struct_id: id, parent, state });
            }
        }
        i += 1;
    }
    assert(ps.subrange(0, i as int) =~= ps);
    out
}

/// The body of a function with the borrows of dynamic fields as borrows from typed
/// maps.
pub open spec fn body_borrows(body: Node, ps: Seq<Param>, c: Borrows) -> Node {
    borrows_rewritten(body, c, param_owners(ps, c.map)).0
}

/// Rewrites the borrows of dynamic fields in the body of a function.
pub fn rewrite_borrow_mut_pre(
    body: &IRNode,
    params: &Vec<Parameter>,
    c: &BorrowContext,
) -> (r: IRNode)
    ensures
        r@ == body_borrows(body@, Parameter::views(params@), c@),
{
    let mut ws = seed_owners(params, c.map);
    c.rewrite_borrow_mut_pre_ctx(body, &mut ws)
}

} // verus!
