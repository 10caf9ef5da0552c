//! Merging a field update that went to a copy of a struct with the update that
//! puts the old field back.
//!
//! A chain of bindings may update a field of an alias of a variable, and then set
//! the same field of the variable to a snapshot of its old value. The second
//! update is given the value of the first.

use crate::ir::{clone_names, IRNode, Node, WriteBackEdge};
use crate::parts::{is_branching, is_control};
use crate::shadowing::{
    add_snap, copy_snaps, extract_field_snapshot, extract_self_update, find_snap, keep_fresh,
    rebuild_let_chain, rebuild_self_update, Gone, SelfUpdate, Snap, Snapshot, Stale, Update,
};
use crate::traverse::{map_nodes, Rewrite};
use crate::types::{Name, StructID, TempId};
use vstd::prelude::*;

verus! {

/// How deep expressions are walked that stand inside other expressions.
pub const NESTING: u64 = 18446744073709551615;

/// A variable name with another in its place.
pub open spec fn renamed_name(x: Name, from: Name, to: Name) -> Name {
    if x == from {
        to
    } else {
        x
    }
}

/// The expression with one variable name in the place of another, at its root.
pub open spec fn renamed_here(n: Node, from: Name, to: Name) -> Node {
    match n {
        Node::Var(x) => Node::Var(renamed_name(x, from, to)),
        Node::WriteBack { child, parent, edge } => Node::WriteBack {
            child: renamed_name(child, from, to),
            parent: renamed_name(parent, from, to),
            edge,
        },
        _ => n,
    }
}

/// The expression with one variable name in the place of another.
pub open spec fn renamed(n: Node, from: Name, to: Name) -> Node {
    n.map(|m: Node| renamed_here(m, from, to))
}

/// The step that puts one variable name in the place of another.
struct Rename {
    from: TempId,
    to: TempId,
}

impl Rename {
    /// A name with the other in its place.
    fn name(&self, x: TempId) -> (r: TempId)
        ensures
            r@ == renamed_name(x@, self.from@, self.to@),
    {
        if x == self.from {
            self.to.clone()
        } else {
            x
        }
    }
}

impl Rewrite for Rename {
    closed spec fn accepts(&self, n: Node) -> bool {
        true
    }

    closed spec fn step(&self, n: Node) -> Node {
        renamed_here(n, self.from@, self.to@)
    }

    fn apply(&self, n: IRNode) -> (r: IRNode) {
        match n {
            IRNode::Var(x) => IRNode::Var(self.name(x)),
            IRNode::WriteBack { child, parent, edge } => IRNode::WriteBack {
                child: self.name(child),
                parent: self.name(parent),
                edge,
            },
            other => other,
        }
    }
}

/// Puts one variable name in the place of another.
pub fn substitute_var(node: &IRNode, from: &TempId, to: &TempId) -> (r: IRNode)
    ensures
        r@ == renamed(node@, from@, to@),
{
    let t = Rename { from: from.clone(), to: to.clone() };
    proof {
        node@.lemma_map_accepts_all(|n: Node| t.step(n), |n: Node| t.accepts(n));
        assert((|n: Node| t.step(n)) =~= (|n: Node| renamed_here(n, from@, to@)));
    }
    map_nodes(node, &t)
}

/// Where in a chain of bindings a variable's field was last updated.
#[verifier::ext_equal]
pub struct ShadowAt {
    pub base: Name,
    pub struct_id: StructID,
    pub field_index: usize,
    pub at: nat,
}

/// The executable [`ShadowAt`].
pub struct Shadow {
    pub base: TempId,
    pub struct_id: StructID,
    pub field_index: usize,
    pub at: usize,
}

impl Shadow {
    /// What the entry holds.
    pub open spec fn view(&self) -> ShadowAt {
        ShadowAt {
            base: self.base@,
            struct_id: self.struct_id,
            field_index: self.field_index,
            at: self.at as nat,
        }
    }

    /// What each of the entries holds.
    pub open spec fn views(s: Seq<Shadow>) -> Seq<ShadowAt> {
        Seq::new(s.len(), |i: int| s[i]@)
    }

    /// A copy of an entry.
    fn copy(&self) -> (r: Shadow)
        ensures
            r@ == self@,
    {
        Shadow {
            base: self.base.clone(),
            struct_id: self.struct_id,
            field_index: self.field_index,
            at: self.at,
        }
    }
}

/// What a list of aliases holds.
pub open spec fn alias_views(s: Seq<(TempId, TempId)>) -> Seq<(Name, Name)> {
    Seq::new(s.len(), |i: int| (s[i].0@, s[i].1@))
}

/// What is known of the variables around an expression: the snapshots that they
/// hold, and which of them are copies of which others.
#[verifier::ext_equal]
pub struct Known {
    pub snaps: Seq<Snap>,
    pub aliases: Seq<(Name, Name)>,
}

/// The executable [`Known`].
pub struct CoalesceEnv {
    pub snaps: Vec<Snapshot>,
    pub aliases: Vec<(TempId, TempId)>,
}

impl CoalesceEnv {
    /// What the record holds.
    pub open spec fn view(&self) -> Known {
        Known { snaps: Snapshot::views(self.snaps@), aliases: alias_views(self.aliases@) }
    }
}

/// A chain of bindings that is being walked: the bindings so far, what is known of
/// the variables, and where their fields were last updated.
#[verifier::ext_equal]
pub struct Chain {
    pub out: Seq<(Seq<Name>, Node)>,
    pub known: Known,
    pub shadows: Seq<ShadowAt>,
}

/// The executable [`Chain`].
pub struct ChainState {
    pub out: Vec<(Vec<TempId>, IRNode)>,
    pub env: CoalesceEnv,
    pub shadows: Vec<Shadow>,
}

impl ChainState {
    /// What the state holds.
    pub open spec fn view(&self) -> Chain {
        Chain {
            out: crate::shadowing::binding_views(self.out@),
            known: self.env@,
            shadows: Shadow::views(self.shadows@),
        }
    }
}

/// The aliases that have nothing to do with the variable.
pub open spec fn aliases_without(s: Seq<(Name, Name)>, x: Name) -> Seq<(Name, Name)>
    decreases s.len(),
{
    if s.len() == 0 {
        Seq::empty()
    } else if s.last().0 == x || s.last().1 == x {
        aliases_without(s.drop_last(), x)
    } else {
        aliases_without(s.drop_last(), x).push(s.last())
    }
}

/// The aliases of other variables.
pub open spec fn aliases_but(s: Seq<(Name, Name)>, x: Name) -> Seq<(Name, Name)>
    decreases s.len(),
{
    if s.len() == 0 {
        Seq::empty()
    } else if s.last().0 == x {
        aliases_but(s.drop_last(), x)
    } else {
        aliases_but(s.drop_last(), x).push(s.last())
    }
}

/// Keeps the aliases that have nothing to do with the variable, or, where only
/// names count, those of other variables.
fn keep_aliases(s: &Vec<(TempId, TempId)>, x: &TempId, names_only: bool) -> (r: Vec<
    (TempId, TempId),
>)
    ensures
        names_only ==> alias_views(r@) == aliases_but(alias_views(s@), x@),
        !names_only ==> alias_views(r@) == aliases_without(alias_views(s@), x@),
{
    let ghost all = alias_views(s@);
    let mut out: Vec<(TempId, TempId)> = Vec::new();
    let mut i: usize = 0;
    assert(alias_views(out@) =~= Seq::empty());
    while i < s.len()
        invariant
            i <= s.len(),
            all == alias_views(s@),
            names_only ==> alias_views(out@) == aliases_but(all.subrange(0, i as int), x@),
            !names_only ==> alias_views(out@) == aliases_without(all.subrange(0, i as int), x@),
        decreases s.len() - i,
    {
        let ghost next = all.subrange(0, i + 1);
        assert(next.drop_last() =~= all.subrange(0, i as int));
        assert(next.last() == all[i as int]);
        if !(s[i].0 == *x || (!names_only && s[i].1 == *x)) {
            let ghost before = out@;
            out.push((s[i].0.clone(), s[i].1.clone()));
            assert(alias_views(out@) =~= alias_views(before).push(all[i as int]));
        }
        i += 1;
    }
    assert(all.subrange(0, i as int) =~= all);
    out
}

/// What the variable is a copy of.
pub open spec fn alias_of(s: Seq<(Name, Name)>, x: Name) -> Option<Name>
    decreases s.len(),
{
    if s.len() == 0 {
        None
    } else if s.last().0 == x {
        Some(s.last().1)
    } else {
        alias_of(s.drop_last(), x)
    }
}

/// Whether the variable is a copy of the other.
fn is_alias_of(s: &Vec<(TempId, TempId)>, x: &TempId, y: &TempId) -> (r: bool)
    ensures
        r == (alias_of(alias_views(s@), x@) == Some(y@)),
{
    let ghost all = alias_views(s@);
    let mut i: usize = s.len();
    assert(all.subrange(0, i as int) =~= all);
    while i > 0
        invariant
            i <= s.len(),
            all == alias_views(s@),
            alias_of(all, x@) == alias_of(all.subrange(0, i as int), x@),
        decreases i,
    {
        assert(all.subrange(0, i as int).last() == all[i - 1]);
        assert(all.subrange(0, i as int).drop_last() =~= all.subrange(0, i - 1));
        if s[i - 1].0 == *x {
            return s[i - 1].1 == *y;
        }
        i -= 1;
    }
    false
}

/// The updates of other variables.
pub open spec fn shadows_without(s: Seq<ShadowAt>, x: Name) -> Seq<ShadowAt>
    decreases s.len(),
{
    if s.len() == 0 {
        Seq::empty()
    } else if s.last().base == x {
        shadows_without(s.drop_last(), x)
    } else {
        shadows_without(s.drop_last(), x).push(s.last())
    }
}

/// The updates of other variables or fields.
pub open spec fn shadows_but(s: Seq<ShadowAt>, e: ShadowAt) -> Seq<ShadowAt>
    decreases s.len(),
{
    if s.len() == 0 {
        Seq::empty()
    } else if same_field(s.last(), e) {
        shadows_but(s.drop_last(), e)
    } else {
        shadows_but(s.drop_last(), e).push(s.last())
    }
}

/// Whether two updates are of the same field of the same variable.
pub open spec fn same_field(a: ShadowAt, b: ShadowAt) -> bool {
    a.base == b.base && a.struct_id == b.struct_id && a.field_index == b.field_index
}

/// Keeps the updates of other variables.
fn keep_shadows(s: &Vec<Shadow>, x: &TempId) -> (r: Vec<Shadow>)
    ensures
        Shadow::views(r@) == shadows_without(Shadow::views(s@), x@),
{
    let ghost all = Shadow::views(s@);
    let mut out: Vec<Shadow> = Vec::new();
    let mut i: usize = 0;
    assert(Shadow::views(out@) =~= Seq::empty());
    while i < s.len()
        invariant
            i <= s.len(),
            all == Shadow::views(s@),
            Shadow::views(out@) == shadows_without(all.subrange(0, i as int), x@),
        decreases s.len() - i,
    {
        let ghost next = all.subrange(0, i + 1);
        assert(next.drop_last() =~= all.subrange(0, i as int));
        assert(next.last() == all[i as int]);
        if s[i].base != *x {
            let ghost before = out@;
            out.push(s[i].copy());
            assert(Shadow::views(out@) =~= Shadow::views(before).push(all[i as int]));
        }
        i += 1;
    }
    assert(all.subrange(0, i as int) =~= all);
    out
}

/// Adds an update in the place of that of the same field.
fn add_shadow(s: &Vec<Shadow>, e: Shadow) -> (r: Vec<Shadow>)
    ensures
        Shadow::views(r@) == shadows_but(Shadow::views(s@), e@).push(e@),
{
    let ghost all = Shadow::views(s@);
    let mut out: Vec<Shadow> = Vec::new();
    let mut i: usize = 0;
    assert(Shadow::views(out@) =~= Seq::empty());
    while i < s.len()
        invariant
            i <= s.len(),
            all == Shadow::views(s@),
            Shadow::views(out@) == shadows_but(all.subrange(0, i as int), e@),
        decreases s.len() - i,
    {
        let ghost next = all.subrange(0, i + 1);
        assert(next.drop_last() =~= all.subrange(0, i as int));
        assert(next.last() == all[i as int]);
        let x = &s[i];
        if !(x.base == e.base && x.struct_id == e.struct_id && x.field_index == e.field_index) {
            let ghost before = out@;
            out.push(x.copy());
            assert(Shadow::views(out@) =~= Shadow::views(before).push(all[i as int]));
        }
        i += 1;
    }
    assert(all.subrange(0, i as int) =~= all);
    let ghost before = out@;
    out.push(e);
    assert(Shadow::views(out@) =~= Shadow::views(before).push(e@));
    out
}

/// Whether the entry stands for a binding that updates the field of the variable
/// or of a copy of it.
pub open spec fn shadow_fits(c: Chain, e: ShadowAt, u: Update) -> bool {
    &&& e.struct_id == u.struct_id
    &&& e.field_index == u.field_index
    &&& e.base == u.base || alias_of(c.known.aliases, e.base) == Some(u.base)
    &&& e.at < c.out.len()
    &&& c.out[e.at as int].0 == seq![e.base]
    &&& match self_update_of(c, e.at as int) {
        Some(v) => v.base == e.base && v.struct_id == u.struct_id && v.field_index
            == u.field_index,
        None => false,
    }
}

/// The update that the `i`th binding of the chain makes.
pub open spec fn self_update_of(c: Chain, i: int) -> Option<Update> {
    crate::shadowing::self_update(c.out[i].1)
}

/// The last binding among the first `k` entries that updates the field of the
/// variable or of a copy of it.
pub open spec fn last_shadow(c: Chain, u: Update, k: nat) -> Option<nat>
    decreases k,
{
    if k == 0 {
        None
    } else {
        let e = c.shadows[k - 1];
        let best = last_shadow(c, u, (k - 1) as nat);
        if shadow_fits(c, e, u) && (best is None || e.at > best->0) {
            Some(e.at)
        } else {
            best
        }
    }
}

/// What an optional place holds.
pub open spec fn optional_place(p: Option<usize>) -> Option<nat> {
    match p {
        Some(x) => Some(x as nat),
        None => None,
    }
}

impl ChainState {
    /// Whether the entry stands for a binding that updates the field of the
    /// variable or of a copy of it.
    fn fits(&self, e: &Shadow, u: &SelfUpdate) -> (r: bool)
        ensures
            r == shadow_fits(self@, e@, u@),
    {
        let ghost c = self@;
        assert(c.out.len() == self.out@.len());
        if e.struct_id != u.struct_id || e.field_index != u.field_index {
            return false;
        }
        if !(e.base == u.base || is_alias_of(&self.env.aliases, &e.base, &u.base)) {
            return false;
        }
        if e.at >= self.out.len() {
            return false;
        }
        let pattern = &self.out[e.at].0;
        assert(c.out[e.at as int].0 == crate::ir::names(pattern@));
        if pattern.len() != 1 {
            assert(c.out[e.at as int].0.len() != 1);
            return false;
        }
        assert(c.out[e.at as int].0[0] == pattern@[0]@);
        if pattern[0] != e.base {
            assert(c.out[e.at as int].0 != seq![e.base@]);
            return false;
        }
        assert(c.out[e.at as int].0 =~= seq![e.base@]);
        match extract_self_update(&self.out[e.at].1) {
            Some(v) => v.base == e.base && v.struct_id == u.struct_id && v.field_index
                == u.field_index,
            None => false,
        }
    }

    /// The last binding that updates the field of the variable or of a copy of it.
    fn find_shadow_for_y(&self, u: &SelfUpdate) -> (r: Option<usize>)
        ensures
            optional_place(r) == last_shadow(self@, u@, self@.shadows.len()),
            r is Some ==> exists|e: ShadowAt|
                e.at == r->0 && #[trigger] shadow_fits(self@, e, u@),
    {
        let mut best: Option<usize> = None;
        let mut i: usize = 0;
        while i < self.shadows.len()
            invariant
                i <= self.shadows.len(),
                optional_place(best) == last_shadow(self@, u@, i as nat),
                best is Some ==> exists|e: ShadowAt|
                    e.at == best->0 && #[trigger] shadow_fits(self@, e, u@),
            decreases self.shadows.len() - i,
        {
            let e = &self.shadows[i];
            assert(self@.shadows[i as int] == e@);
            if self.fits(e, u) {
                let later = match best {
                    Some(b) => e.at > b,
                    None => true,
                };
                if later {
                    best = Some(e.at);
                    assert(shadow_fits(self@, e@, u@));
                }
            }
            i += 1;
        }
        best
    }
}

/// Where the update that a self-noop puts back was made: the expression sets a
/// field of the variable to a snapshot of that field.
pub open spec fn reverted(c: Chain, u: Update) -> Option<nat> {
    match u.value {
        Node::Var(s) => match crate::shadowing::snap_of(c.known.snaps, s) {
            Some(e) => if e.struct_id == u.struct_id && e.field_index == u.field_index && e.base
                == u.base {
                last_shadow(c, u, c.shadows.len())
            } else {
                None
            },
            None => None,
        },
        _ => None,
    }
}

/// The update that a binding of a variable makes to that variable.
pub open spec fn own_update(pattern: Seq<Name>, v: Node) -> Option<Update> {
    match crate::shadowing::self_update(v) {
        Some(u) => if pattern.len() == 1 && pattern[0] == u.base {
            Some(u)
        } else {
            None
        },
        None => None,
    }
}

/// The chain after a self-noop, which takes over the value of the update that it
/// would put back.
pub open spec fn merged(c: Chain, pattern: Seq<Name>, u: Update, at: nat) -> Chain {
    let x = c.out[at as int].0[0];
    let value = renamed(self_update_of(c, at as int)->0.value, x, u.base);
    let e = ShadowAt {
        base: u.base,
        struct_id: u.struct_id,
        field_index: u.field_index,
        at: c.out.len(),
    };
    Chain {
        out: c.out.push((pattern, crate::shadowing::update_node(Update { value, ..u }))),
        known: Known {
            snaps: crate::shadowing::fresh(c.known.snaps, Gone::Of(u.base)),
            aliases: c.known.aliases,
        },
        shadows: shadows_but(shadows_without(c.shadows, u.base), e).push(e),
    }
}

/// The chain without what is known of the variable.
pub open spec fn forgotten(c: Chain, x: Name) -> Chain {
    Chain {
        out: c.out,
        known: Known {
            snaps: crate::shadowing::fresh(c.known.snaps, Gone::About(x)),
            aliases: aliases_without(c.known.aliases, x),
        },
        shadows: shadows_without(c.shadows, x),
    }
}

/// The chain without what is known of the variables.
pub open spec fn all_forgotten(c: Chain, xs: Seq<Name>) -> Chain
    decreases xs.len(),
{
    if xs.len() == 0 {
        c
    } else {
        forgotten(all_forgotten(c, xs.drop_last()), xs.last())
    }
}

/// The chain without what a binding makes out of date. A direct write-back without
/// a pattern binds its parent anew; an update of a variable's own field leaves what
/// is known of it.
pub open spec fn outdated(c: Chain, pattern: Seq<Name>, v: Node) -> Chain {
    if pattern.len() == 0 {
        match v {
            Node::WriteBack { parent, edge: WriteBackEdge::Direct, .. } => forgotten(c, parent),
            _ => c,
        }
    } else if own_update(pattern, v) is Some {
        c
    } else {
        all_forgotten(c, pattern)
    }
}

/// The chain with what a binding of one variable makes known of it.
pub open spec fn learnt(c: Chain, x: Name, v: Node) -> Chain {
    let at = c.out.len();
    Chain {
        out: c.out,
        known: Known {
            snaps: match crate::shadowing::taken_snap(x, v) {
                Some(e) => crate::shadowing::with_snap(c.known.snaps, e),
                None => c.known.snaps,
            },
            aliases: match v {
                Node::Var(y) => aliases_but(c.known.aliases, x).push((x, y)),
                _ => c.known.aliases,
            },
        },
        shadows: match own_update(seq![x], v) {
            Some(u) => {
                let e = ShadowAt {
                    base: x,
                    struct_id: u.struct_id,
                    field_index: u.field_index,
                    at,
                };
                shadows_but(c.shadows, e).push(e)
            },
            None => c.shadows,
        },
    }
}

/// The chain with one more binding.
pub open spec fn extended(c: Chain, pattern: Seq<Name>, v: Node) -> Chain {
    match own_update(pattern, v) {
        Some(u) => match reverted(c, u) {
            Some(at) => merged(c, pattern, u, at),
            None => followed(c, pattern, v),
        },
        None => followed(c, pattern, v),
    }
}

/// The chain with one more binding as it stands.
pub open spec fn followed(c: Chain, pattern: Seq<Name>, v: Node) -> Chain {
    let c1 = outdated(c, pattern, v);
    let c2 = if pattern.len() == 1 {
        learnt(c1, pattern[0], v)
    } else {
        c1
    };
    Chain { out: c2.out.push((pattern, v)), ..c2 }
}

impl ChainState {
    /// Where the update that a self-noop puts back was made.
    fn find_reverted(&self, u: &SelfUpdate) -> (r: Option<usize>)
        ensures
            optional_place(r) == reverted(self@, u@),
            r is Some ==> exists|e: ShadowAt|
                e.at == r->0 && #[trigger] shadow_fits(self@, e, u@),
    {
        match &u.value {
            IRNode::Var(s) => match find_snap(&self.env.snaps, s) {
                Some(e) => if e.struct_id == u.struct_id && e.field_index == u.field_index
                    && e.base == u.base {
                    self.find_shadow_for_y(u)
                } else {
                    None
                },
                None => None,
            },
            _ => None,
        }
    }

    /// Adds a self-noop, which takes over the value of the update that it would put
    /// back.
    fn merge(&mut self, pattern: Vec<TempId>, u: SelfUpdate, at: usize)
        requires
            exists|e: ShadowAt| e.at == at && #[trigger] shadow_fits(old(self)@, e, u@),
        ensures
            final(self)@ == merged(old(self)@, crate::ir::names(pattern@), u@, at as nat),
    {
        let ghost c = self@;
        assert(c.out.len() == self.out@.len());
        assert(c.out[at as int].0 == crate::ir::names(self.out@[at as int].0@));
        assert(c.out[at as int].0.len() == self.out@[at as int].0@.len());
        let y = u.base.clone();
        let value = match extract_self_update(&self.out[at].1) {
            Some(v) => substitute_var(&v.value, &self.out[at].0[0], &y),
            None => u.value.clone(),
        };
        let ghost goal_value = renamed(self_update_of(c, at as int)->0.value, c.out[at as int].0[0], u@.base);
        assert(value@ == goal_value);
        let e = Shadow {
            base: y.clone(),
            struct_id: u.struct_id,
            field_index: u.field_index,
            at: self.out.len(),
        };
        let new_value = rebuild_self_update(
            SelfUpdate {
                base: u.base,
                struct_id: u.struct_id,
                field_index: u.field_index,
                value,
                through_ref: u.through_ref,
            },
        );
        self.env.snaps = keep_fresh(&self.env.snaps, Stale::Of(y.clone()));
        self.shadows = add_shadow(&keep_shadows(&self.shadows, &y), e);
        self.out.push((pattern, new_value));
        assert(self@.out =~= c.out.push(
            (
                crate::ir::names(pattern@),
                crate::shadowing::update_node(Update { value: goal_value, ..u@ }),
            ),
        ));
    }

    /// Forgets what is known of a variable.
    fn forget(&mut self, x: &TempId)
        ensures
            final(self)@ == forgotten(old(self)@, x@),
    {
        self.env.snaps = keep_fresh(&self.env.snaps, Stale::About(x.clone()));
        self.env.aliases = keep_aliases(&self.env.aliases, x, false);
        self.shadows = keep_shadows(&self.shadows, x);
    }

    /// Forgets what is known of some variables.
    fn forget_all(&mut self, xs: &Vec<TempId>)
        ensures
            final(self)@ == all_forgotten(old(self)@, crate::ir::names(xs@)),
    {
        let ghost start = self@;
        let ghost all = crate::ir::names(xs@);
        let mut i: usize = 0;
        assert(all.subrange(0, 0) =~= Seq::empty());
        while i < xs.len()
            invariant
                i <= xs.len(),
                all == crate::ir::names(xs@),
                self@ == all_forgotten(start, all.subrange(0, i as int)),
            decreases xs.len() - i,
        {
            let ghost next = all.subrange(0, i + 1);
            assert(next.drop_last() =~= all.subrange(0, i as int));
            assert(next.last() == xs@[i as int]@);
            self.forget(&xs[i]);
            i += 1;
        }
        assert(all.subrange(0, i as int) =~= all);
    }

    /// Learns what a binding of one variable makes known of it.
    fn learn(&mut self, x: &TempId, v: &IRNode)
        ensures
            final(self)@ == learnt(old(self)@, x@, v@),
    {
        let ghost c = self@;
        let at = self.out.len();
        assert(c.out.len() == self.out@.len());
        match extract_self_update(v) {
            Some(u) => {
                if u.base == *x {
                    let e = Shadow {
                        base: x.clone(),
                        struct_id: u.struct_id,
                        field_index: u.field_index,
                        at,
                    };
                    self.shadows = add_shadow(&self.shadows, e);
                }
            },
            None => {},
        }
        match v {
            IRNode::Var(y) => {
                let mut kept = keep_aliases(&self.env.aliases, x, true);
                let ghost before = kept@;
                kept.push((x.clone(), y.clone()));
                assert(alias_views(kept@) =~= alias_views(before).push((x@, y@)));
                self.env.aliases = kept;
            },
            _ => {},
        }
        match extract_field_snapshot(x, v) {
            Some(e) => {
                self.env.snaps = add_snap(&self.env.snaps, e);
            },
            None => {},
        }
    }

    /// Adds a binding as it stands.
    fn follow(&mut self, pattern: Vec<TempId>, v: IRNode)
        ensures
            final(self)@ == followed(old(self)@, crate::ir::names(pattern@), v@),
    {
        let ghost c = self@;
        let ghost ps = crate::ir::names(pattern@);
        assert(ps.len() == pattern@.len());
        if pattern.len() == 0 {
            match &v {
                IRNode::WriteBack { parent, edge: WriteBackEdge::Direct, .. } => {
                    self.forget(parent);
                },
                _ => {},
            }
        } else {
            let own = if pattern.len() == 1 {
                assert(ps[0] == pattern@[0]@);
                match extract_self_update(&v) {
                    Some(u) => u.base == pattern[0],
                    None => false,
                }
            } else {
                false
            };
            assert(own == (own_update(ps, v@) is Some));
            if !own {
                self.forget_all(&pattern);
            }
        }
        assert(self@ == outdated(c, ps, v@));
        if pattern.len() == 1 {
            self.learn(&pattern[0], &v);
        }
        let ghost c2 = self@;
        self.out.push((pattern, v));
        assert(self@.out =~= c2.out.push((ps, v@)));
    }

    /// Adds a binding.
    fn extend(&mut self, pattern: Vec<TempId>, v: IRNode)
        ensures
            final(self)@ == extended(old(self)@, crate::ir::names(pattern@), v@),
    {
        let ghost ps = crate::ir::names(pattern@);
        assert(ps.len() == pattern@.len());
        if pattern.len() == 1 {
            assert(ps[0] == pattern@[0]@);
            match extract_self_update(&v) {
                Some(u) => {
                    if u.base == pattern[0] {
                        assert(own_update(ps, v@) == Some(u@));
                        match self.find_reverted(&u) {
                            Some(at) => {
                                self.merge(pattern, u, at);
                                return ;
                            },
                            None => {},
                        }
                    }
                },
                None => {},
            }
        }
        self.follow(pattern, v);
    }
}

/// The tail of a chain: a self-noop gives way to the variable itself.
pub open spec fn settled_tail(c: Chain, tail: Node) -> Node {
    match crate::shadowing::self_update(tail) {
        Some(u) => if reverted(c, u) is Some {
            Node::Var(u.base)
        } else {
            tail
        },
        None => tail,
    }
}

/// The expression with its self-noops merged, where the given is known of the
/// variables around it. Chains and branches that stand inside other expressions are
/// walked as deep as given.
pub open spec fn coalesced(n: Node, known: Known, depth: nat) -> Node
    decreases 2 * depth, n, 3nat,
{
    if n is Let {
        coalesced_chain(n, Chain { out: Seq::empty(), known, shadows: Seq::empty() }, depth)
    } else {
        coalesced_other(n, known, depth)
    }
}

/// A chain of bindings, merged behind what was walked of it.
pub open spec fn coalesced_chain(n: Node, c: Chain, depth: nat) -> Node
    decreases 2 * depth, n, 2nat,
{
    match n {
        Node::Let { pattern, value, body } => coalesced_chain(
            *body,
            extended(c, pattern, coalesced(*value, c.known, depth)),
            depth,
        ),
        _ => crate::shadowing::chained(
            c.out,
            settled_tail(c, coalesced_other(n, c.known, depth)),
        ),
    }
}

/// An expression that is no chain, with its self-noops merged.
pub open spec fn coalesced_other(n: Node, known: Known, depth: nat) -> Node
    decreases 2 * depth, n, 1nat,
{
    if crate::parts::branching(n) {
        n.with_kids(coalesced_kids(n, known, depth))
    } else if depth == 0 {
        n
    } else {
        n.map(coalescing(known, (depth - 1) as nat))
    }
}

/// The direct subexpressions with their self-noops merged.
pub open spec fn coalesced_kids(n: Node, known: Known, depth: nat) -> Seq<Node>
    decreases 2 * depth, n, 0nat,
{
    proof {
        n.lemma_kids_decrease();
    }
    Seq::new(
        n.kids().len(),
        |i: int|
            if 0 <= i < n.kids().len() {
                coalesced(n.kids()[i], known, depth)
            } else {
                arbitrary()
            },
    )
}

/// The step that merges in chains and branches inside other expressions.
pub open spec fn coalescing(known: Known, depth: nat) -> spec_fn(Node) -> Node
    decreases 2 * depth + 1, Node::OptionNone, 0nat,
{
    |m: Node|
        if crate::parts::controls(m) {
            coalesced(m, known, depth)
        } else {
            m
        }
}

/// Merges the self-noops of an expression.
fn coalesce_walk(node: &IRNode, env: &CoalesceEnv, depth: u64) -> (r: IRNode)
    ensures
        r@ == coalesced(node@, env@, depth as nat),
    decreases 2 * depth, node@, 3nat,
{
    match node {
        IRNode::Let { .. } => {
            let c = ChainState {
                out: Vec::new(),
                env: copy_env(env),
                shadows: Vec::new(),
            };
            assert(c@.out =~= Seq::empty());
            assert(c@.shadows =~= Seq::empty());
            coalesce_chain(node, c, depth)
        },
        _ => coalesce_other(node, env, depth),
    }
}

/// A copy of what is known.
fn copy_env(env: &CoalesceEnv) -> (r: CoalesceEnv)
    ensures
        r@ == env@,
{
    let mut aliases: Vec<(TempId, TempId)> = Vec::new();
    let mut i: usize = 0;
    while i < env.aliases.len()
        invariant
            i <= env.aliases.len(),
            aliases@.len() == i,
            forall|j: int| #![trigger aliases@[j]]
                0 <= j < i ==> aliases@[j].0@ == env.aliases@[j].0@ && aliases@[j].1@
                    == env.aliases@[j].1@,
        decreases env.aliases.len() - i,
    {
        aliases.push((env.aliases[i].0.clone(), env.aliases[i].1.clone()));
        i += 1;
    }
    assert(alias_views(aliases@) =~= alias_views(env.aliases@));
    CoalesceEnv { snaps: copy_snaps(&env.snaps), aliases }
}

/// Merges the self-noops of a chain of bindings, behind what was walked of it.
fn coalesce_chain(node: &IRNode, chain: ChainState, depth: u64) -> (r: IRNode)
    ensures
        r@ == coalesced_chain(node@, chain@, depth as nat),
    decreases 2 * depth, node@, 2nat,
{
    match node {
        IRNode::Let { pattern, value, body } => {
            let mut c = chain;
            let v = coalesce_walk(value, &c.env, depth);
            c.extend(clone_names(pattern), v);
            coalesce_chain(body, c, depth)
        },
        _ => {
            let tail = coalesce_other(node, &chain.env, depth);
            let settled = coalesce_tail_self_noop(tail, &chain);
            rebuild_let_chain(chain.out, settled)
        },
    }
}

/// The tail of a chain: a self-noop gives way to the variable itself.
fn coalesce_tail_self_noop(tail: IRNode, c: &ChainState) -> (r: IRNode)
    ensures
        r@ == settled_tail(c@, tail@),
{
    match extract_self_update(&tail) {
        Some(u) => match c.find_reverted(&u) {
            Some(_) => IRNode::Var(u.base),
            None => tail,
        },
        None => tail,
    }
}

/// Merges the self-noops of an expression that is no chain.
fn coalesce_other(node: &IRNode, env: &CoalesceEnv, depth: u64) -> (r: IRNode)
    ensures
        r@ == coalesced_other(node@, env@, depth as nat),
    decreases 2 * depth, node@, 1nat,
{
    if !is_branching(node) {
        if depth == 0 {
            return node.clone();
        }
        return coalesce_inside(node, env, depth - 1);
    }
    let ks = node.children();
    let mut out: Vec<IRNode> = Vec::new();
    let mut i: usize = 0;
    proof {
        node@.lemma_kids_decrease();
    }
    while i < ks.len()
        invariant
            i <= ks.len(),
            out@.len() == i,
            ks@.len() == node@.kids().len(),
            forall|j: int| 0 <= j < ks@.len() ==> (#[trigger] ks@[j])@ == node@.kids()[j],
            forall|j: int|
                0 <= j < i ==> (#[trigger] out@[j])@ == coalesced(
                    node@.kids()[j],
                    env@,
                    depth as nat,
                ),
            forall|j: int| 0 <= j < node@.kids().len() ==> decreases_to!(
                node@ => #[trigger] node@.kids()[j]
            ),
        decreases ks.len() - i,
    {
        assert(ks@[i as int]@ == node@.kids()[i as int]);
        out.push(coalesce_walk(ks[i], env, depth));
        i += 1;
    }
    assert(IRNode::views(out@) =~= coalesced_kids(node@, env@, depth as nat));
    node.with_children(out)
}

/// Merges the self-noops in chains and branches inside an expression.
fn coalesce_inside(node: &IRNode, env: &CoalesceEnv, depth: u64) -> (r: IRNode)
    ensures
        r@ == node@.map(coalescing(env@, depth as nat)),
    decreases 2 * depth + 1, node@, 0nat,
{
    let ghost f = coalescing(env@, depth as nat);
    let ks = node.children();
    let mut out: Vec<IRNode> = Vec::new();
    let mut i: usize = 0;
    proof {
        node@.lemma_kids_decrease();
    }
    while i < ks.len()
        invariant
            i <= ks.len(),
            out@.len() == i,
            f == coalescing(env@, depth as nat),
            ks@.len() == node@.kids().len(),
            forall|j: int| 0 <= j < ks@.len() ==> (#[trigger] ks@[j])@ == node@.kids()[j],
            forall|j: int| 0 <= j < i ==> (#[trigger] out@[j])@ == node@.kids()[j].map(f),
            forall|j: int| 0 <= j < node@.kids().len() ==> decreases_to!(
                node@ => #[trigger] node@.kids()[j]
            ),
        decreases ks.len() - i,
    {
        assert(ks@[i as int]@ == node@.kids()[i as int]);
        out.push(coalesce_inside(ks[i], env, depth));
        i += 1;
    }
    assert(IRNode::views(out@) =~= node@.mapped_kids(f));
    let rebuilt = node.with_children(out);
    if is_control(&rebuilt) {
        coalesce_walk(&rebuilt, env, depth)
    } else {
        rebuilt
    }
}

/// Merges the field updates that went to copies of structs with the updates that
/// put the old fields back.
pub fn coalesce_shadow_self_noop_updates(node: IRNode) -> (r: IRNode)
    ensures
        r@ == coalesced(
            node@,
            Known { snaps: Seq::empty(), aliases: Seq::empty() },
            NESTING as nat,
        ),
{
    let env = CoalesceEnv { snaps: Vec::new(), aliases: Vec::new() };
    assert(env@.snaps =~= Seq::empty());
    assert(env@.aliases =~= Seq::empty());
    coalesce_walk(&node, &env, NESTING)
}

} // verus!
