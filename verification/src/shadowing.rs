//! Bindings that update a field of the variable that they bind, and chains of
//! bindings.

use crate::ir::{IRNode, Node};
use crate::types::{Name, StructID, TempId};
use vstd::prelude::*;

verus! {

/// A struct with one field updated, as a new value of the variable that held it.
#[verifier::ext_equal]
pub struct Update {
    pub base: Name,
    pub struct_id: StructID,
    pub field_index: usize,
    pub value: Node,
    pub through_ref: bool,
}

/// The executable [`Update`].
pub struct SelfUpdate {
    pub base: TempId,
    pub struct_id: StructID,
    pub field_index: usize,
    pub value: IRNode,
    pub through_ref: bool,
}

impl SelfUpdate {
    /// What the update holds.
    pub open spec fn view(&self) -> Update {
        Update {
            base: self.base@,
            struct_id: self.struct_id,
            field_index: self.field_index,
            value: self.value@,
            through_ref: self.through_ref,
        }
    }
}

/// What an optional update holds.
pub open spec fn optional_update(u: Option<SelfUpdate>) -> Option<Update> {
    match u {
        Some(x) => Some(x@),
        None => None,
    }
}

/// The variable that the expression is, or reads through a reference.
pub open spec fn var_under(n: Node) -> Option<Name> {
    match n {
        Node::Var(x) => Some(x),
        Node::ReadRef(inner) => match *inner {
            Node::Var(x) => Some(x),
            _ => None,
        },
        _ => None,
    }
}

/// What an optional name holds.
pub open spec fn optional_name(x: Option<TempId>) -> Option<Name> {
    match x {
        Some(y) => Some(y@),
        None => None,
    }
}

/// The variable that the expression is, or reads through a reference.
pub fn base_var(node: &IRNode) -> (r: Option<TempId>)
    ensures
        optional_name(r) == var_under(node@),
{
    proof {
        reveal_with_fuel(IRNode::view, 2);
    }
    match node {
        IRNode::Var(x) => Some(x.clone()),
        IRNode::ReadRef(inner) => match &**inner {
            IRNode::Var(x) => Some(x.clone()),
            _ => None,
        },
        _ => None,
    }
}

/// The update of a variable's field that the expression is: on a plain struct, or
/// written through a reference.
pub open spec fn self_update(n: Node) -> Option<Update> {
    match n {
        Node::UpdateField { base, struct_id, field_index, value } => match *base {
            Node::Var(x) => Some(
                Update { base: x, struct_id, field_index, value: *value, through_ref: false },
            ),
            _ => None,
        },
        Node::WriteRef { reference, value } => match (*reference, *value) {
            (
                Node::Var(x),
                Node::UpdateField { base, struct_id, field_index, value },
            ) => if var_under(*base) == Some(x) {
                Some(Update { base: x, struct_id, field_index, value: *value, through_ref: true })
            } else {
                None
            },
            _ => None,
        },
        _ => None,
    }
}

/// The update of a variable's field that the expression is.
pub fn extract_self_update(node: &IRNode) -> (r: Option<SelfUpdate>)
    ensures
        optional_update(r) == self_update(node@),
{
    proof {
        reveal_with_fuel(IRNode::view, 3);
    }
    match node {
        IRNode::UpdateField { base, struct_id, field_index, value } => match &**base {
            IRNode::Var(x) => Some(
                SelfUpdate {
                    base: x.clone(),
                    struct_id: *struct_id,
                    field_index: *field_index,
                    value: (**value).clone(),
                    through_ref: false,
                },
            ),
            _ => None,
        },
        IRNode::WriteRef { reference, value } => match (&**reference, &**value) {
            (IRNode::Var(x), IRNode::UpdateField { base, struct_id, field_index, value: v }) => {
                match base_var(base) {
                    Some(b) => if b == *x {
                        Some(
                            SelfUpdate {
                                base: x.clone(),
                                struct_id: *struct_id,
                                field_index: *field_index,
                                value: (**v).clone(),
                                through_ref: true,
                            },
                        )
                    } else {
                        None
                    },
                    None => None,
                }
            },
            _ => None,
        },
        _ => None,
    }
}

/// The update of a variable's field, on a plain struct or through a reference.
pub open spec fn update_node(u: Update) -> Node {
    if u.through_ref {
        Node::WriteRef {
            reference: Box::new(Node::Var(u.base)),
            value: Box::new(
                Node::UpdateField {
                    base: Box::new(Node::ReadRef(Box::new(Node::Var(u.base)))),
                    struct_id: u.struct_id,
                    field_index: u.field_index,
                    value: Box::new(u.value),
                },
            ),
        }
    } else {
        Node::UpdateField {
            base: Box::new(Node::Var(u.base)),
            struct_id: u.struct_id,
            field_index: u.field_index,
            value: Box::new(u.value),
        }
    }
}

/// Builds the update of a variable's field.
pub fn rebuild_self_update(u: SelfUpdate) -> (r: IRNode)
    ensures
        r@ == update_node(u@),
{
    proof {
        reveal_with_fuel(IRNode::view, 4);
    }
    if u.through_ref {
        IRNode::WriteRef {
            reference: Box::new(IRNode::Var(u.base.clone())),
            value: Box::new(
                IRNode::UpdateField {
                    base: Box::new(IRNode::ReadRef(Box::new(IRNode::Var(u.base)))),
                    struct_id: u.struct_id,
                    field_index: u.field_index,
                    value: Box::new(u.value),
                },
            ),
        }
    } else {
        IRNode::UpdateField {
            base: Box::new(IRNode::Var(u.base)),
            struct_id: u.struct_id,
            field_index: u.field_index,
            value: Box::new(u.value),
        }
    }
}

/// The update that is built is the one that is recognised.
pub proof fn law_update_round_trip(u: Update)
    ensures
        self_update(update_node(u)) == Some(u),
{
}

/// A variable that holds a copy of a field of another.
#[verifier::ext_equal]
pub struct Snap {
    pub name: Name,
    pub base: Name,
    pub struct_id: StructID,
    pub field_index: usize,
    pub through_ref: bool,
}

/// The executable [`Snap`].
pub struct Snapshot {
    pub name: TempId,
    pub base: TempId,
    pub struct_id: StructID,
    pub field_index: usize,
    pub through_ref: bool,
}

impl Snapshot {
    /// What the snapshot holds.
    pub open spec fn view(&self) -> Snap {
        Snap {
            name: self.name@,
            base: self.base@,
            struct_id: self.struct_id,
            field_index: self.field_index,
            through_ref: self.through_ref,
        }
    }

    /// What each of the snapshots holds.
    pub open spec fn views(s: Seq<Snapshot>) -> Seq<Snap> {
        Seq::new(s.len(), |i: int| s[i]@)
    }

    /// A copy of a snapshot.
    pub fn copy(&self) -> (r: Snapshot)
        ensures
            r@ == self@,
    {
        Snapshot {
            name: self.name.clone(),
            base: self.base.clone(),
            struct_id: self.struct_id,
            field_index: self.field_index,
            through_ref: self.through_ref,
        }
    }
}

/// What an optional snapshot holds.
pub open spec fn optional_snap(s: Option<Snapshot>) -> Option<Snap> {
    match s {
        Some(x) => Some(x@),
        None => None,
    }
}

/// The snapshot that the variable holds after it was bound to the expression.
pub open spec fn taken_snap(x: Name, n: Node) -> Option<Snap> {
    match n {
        Node::Field { struct_id, field_index, base } => match var_under(*base) {
            Some(b) => Some(
                Snap {
                    name: x,
                    base: b,
                    struct_id,
                    field_index,
                    through_ref: *base is ReadRef,
                },
            ),
            None => None,
        },
        _ => None,
    }
}

/// The snapshot that the variable holds after it was bound to the expression.
pub fn extract_field_snapshot(x: &TempId, node: &IRNode) -> (r: Option<Snapshot>)
    ensures
        optional_snap(r) == taken_snap(x@, node@),
{
    match node {
        IRNode::Field { struct_id, field_index, base } => {
            let through_ref = match &**base {
                IRNode::ReadRef(_) => true,
                _ => false,
            };
            assert(through_ref == ((*base)@ is ReadRef));
            match base_var(base) {
                Some(b) => Some(
                    Snapshot {
                        name: x.clone(),
                        base: b,
                        struct_id: *struct_id,
                        field_index: *field_index,
                        through_ref,
                    },
                ),
                None => None,
            }
        },
        _ => None,
    }
}

/// The snapshot that the variable holds.
pub open spec fn snap_of(s: Seq<Snap>, x: Name) -> Option<Snap>
    decreases s.len(),
{
    if s.len() == 0 {
        None
    } else if s.last().name == x {
        Some(s.last())
    } else {
        snap_of(s.drop_last(), x)
    }
}

/// The snapshot that the variable holds.
pub fn find_snap(s: &Vec<Snapshot>, x: &TempId) -> (r: Option<Snapshot>)
    ensures
        optional_snap(r) == snap_of(Snapshot::views(s@), x@),
{
    let ghost all = Snapshot::views(s@);
    let mut i: usize = s.len();
    assert(all.subrange(0, i as int) =~= all);
    while i > 0
        invariant
            i <= s.len(),
            all == Snapshot::views(s@),
            snap_of(all, x@) == snap_of(all.subrange(0, i as int), x@),
        decreases i,
    {
        let e = &s[i - 1];
        assert(all.subrange(0, i as int).last() == e@);
        assert(all.subrange(0, i as int).drop_last() =~= all.subrange(0, i - 1));
        if e.name == *x {
            return Some(e.copy());
        }
        i -= 1;
    }
    None
}

/// Which snapshots become stale.
pub enum Gone {
    /// Those that the variable holds.
    Named(Name),
    /// Those of the variable.
    Of(Name),
    /// Those that the variable holds, and those of it.
    About(Name),
    /// Those of the variable that another variable than the given one holds.
    OfBut(Name, Name),
}

impl Gone {
    /// Whether the snapshot becomes stale.
    pub open spec fn hits(self, e: Snap) -> bool {
        match self {
            Gone::Named(x) => e.name == x,
            Gone::Of(x) => e.base == x,
            Gone::About(x) => e.name == x || e.base == x,
            Gone::OfBut(x, y) => e.base == x && e.name != y,
        }
    }
}

/// The executable [`Gone`].
pub enum Stale {
    Named(TempId),
    Of(TempId),
    About(TempId),
    OfBut(TempId, TempId),
}

impl Stale {
    /// What the choice holds.
    pub open spec fn view(&self) -> Gone {
        match *self {
            Stale::Named(x) => Gone::Named(x@),
            Stale::Of(x) => Gone::Of(x@),
            Stale::About(x) => Gone::About(x@),
            Stale::OfBut(x, y) => Gone::OfBut(x@, y@),
        }
    }

    /// Decides whether the snapshot becomes stale.
    fn hit(&self, e: &Snapshot) -> (r: bool)
        ensures
            r == self@.hits(e@),
    {
        match self {
            Stale::Named(x) => e.name == *x,
            Stale::Of(x) => e.base == *x,
            Stale::About(x) => e.name == *x || e.base == *x,
            Stale::OfBut(x, y) => e.base == *x && e.name != *y,
        }
    }
}

/// The snapshots that do not become stale.
pub open spec fn fresh(s: Seq<Snap>, gone: Gone) -> Seq<Snap>
    decreases s.len(),
{
    if s.len() == 0 {
        Seq::empty()
    } else if gone.hits(s.last()) {
        fresh(s.drop_last(), gone)
    } else {
        fresh(s.drop_last(), gone).push(s.last())
    }
}

/// The snapshots that do not become stale.
pub fn keep_fresh(s: &Vec<Snapshot>, gone: Stale) -> (r: Vec<Snapshot>)
    ensures
        Snapshot::views(r@) == fresh(Snapshot::views(s@), gone@),
{
    let ghost all = Snapshot::views(s@);
    let mut out: Vec<Snapshot> = Vec::new();
    let mut i: usize = 0;
    assert(Snapshot::views(out@) =~= Seq::empty());
    while i < s.len()
        invariant
            i <= s.len(),
            all == Snapshot::views(s@),
            Snapshot::views(out@) == fresh(all.subrange(0, i as int), gone@),
        decreases s.len() - i,
    {
        let ghost next = all.subrange(0, i + 1);
        assert(next.drop_last() =~= all.subrange(0, i as int));
        assert(next.last() == s@[i as int]@);
        if !gone.hit(&s[i]) {
            let ghost before = out@;
            out.push(s[i].copy());
            assert(Snapshot::views(out@) =~= Snapshot::views(before).push(s@[i as int]@));
        }
        i += 1;
    }
    assert(all.subrange(0, i as int) =~= all);
    out
}

/// The snapshots with one more, in the place of those of its name.
pub open spec fn with_snap(s: Seq<Snap>, e: Snap) -> Seq<Snap> {
    fresh(s, Gone::Named(e.name)).push(e)
}

/// Adds a snapshot in the place of those of its name.
pub fn add_snap(s: &Vec<Snapshot>, e: Snapshot) -> (r: Vec<Snapshot>)
    ensures
        Snapshot::views(r@) == with_snap(Snapshot::views(s@), e@),
{
    let name = e.name.clone();
    let mut out = keep_fresh(s, Stale::Named(name));
    let ghost before = out@;
    out.push(e);
    assert(Snapshot::views(out@) =~= Snapshot::views(before).push(e@));
    out
}

/// A copy of a list of snapshots.
pub fn copy_snaps(s: &Vec<Snapshot>) -> (r: Vec<Snapshot>)
    ensures
        Snapshot::views(r@) == Snapshot::views(s@),
{
    let mut out: Vec<Snapshot> = Vec::new();
    let mut i: usize = 0;
    while i < s.len()
        invariant
            i <= s.len(),
            out@.len() == i,
            forall|j: int| 0 <= j < i ==> (#[trigger] out@[j])@ == s@[j]@,
        decreases s.len() - i,
    {
        out.push(s[i].copy());
        i += 1;
    }
    assert(Snapshot::views(out@) =~= Snapshot::views(s@));
    out
}

/// What a list of bindings holds.
pub open spec fn binding_views(s: Seq<(Vec<TempId>, IRNode)>) -> Seq<(Seq<Name>, Node)> {
    Seq::new(s.len(), |i: int| (crate::ir::names(s[i].0@), s[i].1@))
}

/// The bindings around the expression, the first the outermost.
pub open spec fn chained(bindings: Seq<(Seq<Name>, Node)>, tail: Node) -> Node
    decreases bindings.len(),
{
    if bindings.len() == 0 {
        tail
    } else {
        chained(
            bindings.drop_last(),
            Node::Let {
                pattern: bindings.last().0,
                value: Box::new(bindings.last().1),
                body: Box::new(tail),
            },
        )
    }
}

/// The bindings that the expression begins with.
pub open spec fn chain_of(n: Node) -> Seq<(Seq<Name>, Node)>
    decreases n,
{
    match n {
        Node::Let { pattern, value, body } => seq![(pattern, *value)] + chain_of(*body),
        _ => Seq::empty(),
    }
}

/// What stands behind the bindings that the expression begins with.
pub open spec fn chain_tail(n: Node) -> Node
    decreases n,
{
    match n {
        Node::Let { body, .. } => chain_tail(*body),
        _ => n,
    }
}

/// An expression is its bindings around what stands behind them.
pub proof fn law_chain_round_trip(n: Node)
    ensures
        chained(chain_of(n), chain_tail(n)) == n,
    decreases n,
{
    match n {
        Node::Let { pattern, value, body } => {
            law_chain_round_trip(*body);
            lemma_chained_front((pattern, *value), chain_of(*body), chain_tail(*body));
        },
        _ => {},
    }
}

/// The outermost binding of a chain.
proof fn lemma_chained_front(
    first: (Seq<Name>, Node),
    rest: Seq<(Seq<Name>, Node)>,
    tail: Node,
)
    ensures
        chained(seq![first] + rest, tail) == (Node::Let {
            pattern: first.0,
            value: Box::new(first.1),
            body: Box::new(chained(rest, tail)),
        }),
    decreases rest.len(),
{
    let all = seq![first] + rest;
    if rest.len() == 0 {
        assert(all.drop_last() =~= Seq::empty());
        assert(all.last() == first);
        assert(chained(all.drop_last(), Node::Let {
            pattern: first.0,
            value: Box::new(first.1),
            body: Box::new(tail),
        }) == (Node::Let {
            pattern: first.0,
            value: Box::new(first.1),
            body: Box::new(tail),
        }));
    } else {
        assert(all.drop_last() =~= seq![first] + rest.drop_last());
        assert(all.last() == rest.last());
        lemma_chained_front(
            first,
            rest.drop_last(),
            Node::Let {
                pattern: rest.last().0,
                value: Box::new(rest.last().1),
                body: Box::new(tail),
            },
        );
    }
}

/// Puts bindings around an expression.
pub fn rebuild_let_chain(bindings: Vec<(Vec<TempId>, IRNode)>, tail: IRNode) -> (r: IRNode)
    ensures
        r@ == chained(binding_views(bindings@), tail@),
{
    let ghost all = binding_views(bindings@);
    let ghost goal = chained(all, tail@);
    let mut rest = bindings;
    let mut current = tail;
    while rest.len() > 0
        invariant
            goal == chained(binding_views(rest@), current@),
        decreases rest.len(),
    {
        let ghost before = rest@;
        match rest.pop() {
            Some((pattern, value)) => {
                assert(binding_views(before).drop_last() =~= binding_views(rest@));
                assert(binding_views(before).last() == (crate::ir::names(pattern@), value@));
                current = IRNode::Let {
                    pattern,
                    value: Box::new(value),
                    body: Box::new(current),
                };
            },
            None => {},
        }
    }
    current
}

} // verus!
