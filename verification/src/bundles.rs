//! Bundles of proof obligations that together show what a companion states.

use crate::ir::{IRNode, Node};
use crate::program::{Param, Parameter};
use crate::types::{FunctionID, Name};
use vstd::prelude::*;

verus! {

/// What an obligation states under its premises.
#[derive(Debug)]
pub enum AbortsLeaf {
    GuardFalse(IRNode),
    GuardTrue(IRNode),
    OptionNone(IRNode),
    PropHolds(IRNode),
    RequiresHolds { callee: FunctionID, args: Vec<IRNode> },
    CalleeNoneUnderRequires { callee: FunctionID, args: Vec<IRNode> },
}

/// What an [`AbortsLeaf`] holds.
#[verifier::ext_equal]
pub enum Claim {
    GuardFalse(Node),
    GuardTrue(Node),
    OptionNone(Node),
    PropHolds(Node),
    RequiresHolds { callee: FunctionID, args: Seq<Node> },
    CalleeNoneUnderRequires { callee: FunctionID, args: Seq<Node> },
}

impl AbortsLeaf {
    /// What the leaf holds.
    pub open spec fn view(&self) -> Claim {
        match *self {
            AbortsLeaf::GuardFalse(e) => Claim::GuardFalse(e@),
            AbortsLeaf::GuardTrue(e) => Claim::GuardTrue(e@),
            AbortsLeaf::OptionNone(e) => Claim::OptionNone(e@),
            AbortsLeaf::PropHolds(e) => Claim::PropHolds(e@),
            AbortsLeaf::RequiresHolds { callee, args } => Claim::RequiresHolds {
                callee,
                args: IRNode::views(args@),
            },
            AbortsLeaf::CalleeNoneUnderRequires { callee, args } => {
                Claim::CalleeNoneUnderRequires { callee, args: IRNode::views(args@) }
            },
        }
    }

    /// Whether two leaves are the same.
    pub fn same(&self, other: &AbortsLeaf) -> (r: bool)
        ensures
            r == (self@ == other@),
    {
        match (self, other) {
            (AbortsLeaf::GuardFalse(a), AbortsLeaf::GuardFalse(b)) => a.same(b),
            (AbortsLeaf::GuardTrue(a), AbortsLeaf::GuardTrue(b)) => a.same(b),
            (AbortsLeaf::OptionNone(a), AbortsLeaf::OptionNone(b)) => a.same(b),
            (AbortsLeaf::PropHolds(a), AbortsLeaf::PropHolds(b)) => a.same(b),
            (
                AbortsLeaf::RequiresHolds { callee: c, args: a },
                AbortsLeaf::RequiresHolds { callee: d, args: b },
            ) => *c == *d && crate::ir::same_nodes(a, b),
            (
                AbortsLeaf::CalleeNoneUnderRequires { callee: c, args: a },
                AbortsLeaf::CalleeNoneUnderRequires { callee: d, args: b },
            ) => *c == *d && crate::ir::same_nodes(a, b),
            _ => false,
        }
    }
}

/// A copy of a list of expressions.
fn copy_nodes(s: &Vec<IRNode>) -> (r: Vec<IRNode>)
    ensures
        IRNode::views(r@) == IRNode::views(s@),
{
    let mut out: Vec<IRNode> = Vec::new();
    let mut i: usize = 0;
    while i < s.len()
        invariant
            i <= s.len(),
            out@.len() == i,
            forall|j: int| 0 <= j < i ==> (#[trigger] out@[j])@ == s@[j]@,
        decreases s.len() - i,
    {
        out.push(s[i].clone());
        i += 1;
    }
    assert(IRNode::views(out@) =~= IRNode::views(s@));
    out
}

impl AbortsLeaf {
    /// A copy of a leaf.
    pub fn copy(&self) -> (r: AbortsLeaf)
        ensures
            r@ == self@,
    {
        match self {
            AbortsLeaf::GuardFalse(e) => AbortsLeaf::GuardFalse(e.clone()),
            AbortsLeaf::GuardTrue(e) => AbortsLeaf::GuardTrue(e.clone()),
            AbortsLeaf::OptionNone(e) => AbortsLeaf::OptionNone(e.clone()),
            AbortsLeaf::PropHolds(e) => AbortsLeaf::PropHolds(e.clone()),
            AbortsLeaf::RequiresHolds { callee, args } => AbortsLeaf::RequiresHolds {
                callee: *callee,
                args: copy_nodes(args),
            },
            AbortsLeaf::CalleeNoneUnderRequires { callee, args } => {
                AbortsLeaf::CalleeNoneUnderRequires { callee: *callee, args: copy_nodes(args) }
            },
        }
    }
}

impl Claim {
    /// The expressions that a claim is about.
    pub open spec fn exprs(self) -> Seq<Node> {
        match self {
            Claim::GuardFalse(e) => seq![e],
            Claim::GuardTrue(e) => seq![e],
            Claim::OptionNone(e) => seq![e],
            Claim::PropHolds(e) => seq![e],
            Claim::RequiresHolds { args, .. } => args,
            Claim::CalleeNoneUnderRequires { args, .. } => args,
        }
    }
}

/// What a list of premises holds.
pub open spec fn path_views(s: Seq<(IRNode, bool)>) -> Seq<(Node, bool)> {
    Seq::new(s.len(), |i: int| (s[i].0@, s[i].1))
}

/// A copy of a list of premises.
pub fn clone_path(s: &Vec<(IRNode, bool)>) -> (r: Vec<(IRNode, bool)>)
    ensures
        path_views(r@) == path_views(s@),
{
    let mut out: Vec<(IRNode, bool)> = Vec::new();
    let mut i: usize = 0;
    while i < s.len()
        invariant
            i <= s.len(),
            out@.len() == i,
            forall|j: int| #![trigger out@[j]]
                0 <= j < i ==> out@[j].0@ == s@[j].0@ && out@[j].1 == s@[j].1,
        decreases s.len() - i,
    {
        out.push((s[i].0.clone(), s[i].1));
        i += 1;
    }
    assert(path_views(out@) =~= path_views(s@));
    out
}

/// The premises with one more.
pub fn longer_path(s: &Vec<(IRNode, bool)>, cond: &IRNode, holds: bool) -> (r: Vec<
    (IRNode, bool),
>)
    ensures
        path_views(r@) == path_views(s@).push((cond@, holds)),
{
    let mut out = clone_path(s);
    let ghost before = out@;
    out.push((cond.clone(), holds));
    assert(path_views(out@) =~= path_views(before).push((cond@, holds)));
    out
}

/// Whether two lists of premises are the same.
pub fn same_path(a: &Vec<(IRNode, bool)>, b: &Vec<(IRNode, bool)>) -> (r: bool)
    ensures
        r == (path_views(a@) == path_views(b@)),
{
    if a.len() != b.len() {
        assert(path_views(a@).len() != path_views(b@).len());
        return false;
    }
    let mut i: usize = 0;
    while i < a.len()
        invariant
            i <= a.len(),
            a.len() == b.len(),
            forall|j: int|
                0 <= j < i ==> #[trigger] path_views(a@)[j] == path_views(b@)[j],
        decreases a.len() - i,
    {
        if !a[i].0.same(&b[i].0) || a[i].1 != b[i].1 {
            assert(path_views(a@)[i as int] != path_views(b@)[i as int]);
            return false;
        }
        i += 1;
    }
    assert(path_views(a@) =~= path_views(b@));
    true
}

/// One obligation: what holds under the premises, over the parameters that it
/// mentions.
#[derive(Debug)]
pub struct AbortsObligation {
    pub name: String,
    pub parameters: Vec<Parameter>,
    pub path: Vec<(IRNode, bool)>,
    pub leaf: AbortsLeaf,
}

/// What an [`AbortsObligation`] holds.
#[verifier::ext_equal]
pub struct Obligation {
    pub name: Name,
    pub parameters: Seq<Param>,
    pub path: Seq<(Node, bool)>,
    pub leaf: Claim,
}

impl AbortsObligation {
    /// What the obligation holds.
    pub open spec fn view(&self) -> Obligation {
        Obligation {
            name: self.name@,
            parameters: Parameter::views(self.parameters@),
            path: path_views(self.path@),
            leaf: self.leaf@,
        }
    }

    /// What each of the obligations holds.
    pub open spec fn views(s: Seq<AbortsObligation>) -> Seq<Obligation> {
        Seq::new(s.len(), |i: int| s[i]@)
    }
}

/// How the obligations, by their numbers, combine to a proof.
#[derive(Debug)]
pub enum AbortsProofNode {
    Rfl,
    OrElse(Box<AbortsProofNode>, Box<AbortsProofNode>),
    BIte(Box<AbortsProofNode>, Box<AbortsProofNode>),
    DIte(Box<AbortsProofNode>, Box<AbortsProofNode>),
    GuardFalse { ob: usize, rest: Box<AbortsProofNode> },
    GuardTrue { ob: usize, rest: Box<AbortsProofNode> },
    Leaf { ob: usize },
    AndBool(Box<AbortsProofNode>, Box<AbortsProofNode>),
    PIte(Box<AbortsProofNode>, Box<AbortsProofNode>),
    BIteBool(Box<AbortsProofNode>, Box<AbortsProofNode>),
    RequiresApp { req_ob: usize, call_ob: usize },
}

/// What an [`AbortsProofNode`] holds.
#[verifier::ext_equal]
pub enum Proof {
    Rfl,
    OrElse(Box<Proof>, Box<Proof>),
    BIte(Box<Proof>, Box<Proof>),
    DIte(Box<Proof>, Box<Proof>),
    GuardFalse { ob: nat, rest: Box<Proof> },
    GuardTrue { ob: nat, rest: Box<Proof> },
    Leaf { ob: nat },
    AndBool(Box<Proof>, Box<Proof>),
    PIte(Box<Proof>, Box<Proof>),
    BIteBool(Box<Proof>, Box<Proof>),
    RequiresApp { req_ob: nat, call_ob: nat },
}

impl AbortsProofNode {
    /// What the proof holds.
    pub open spec fn view(&self) -> Proof
        decreases self,
    {
        match *self {
            AbortsProofNode::Rfl => Proof::Rfl,
            AbortsProofNode::OrElse(a, b) => Proof::OrElse(
                Box::new((*a).view()),
                Box::new((*b).view()),
            ),
            AbortsProofNode::BIte(a, b) => Proof::BIte(
                Box::new((*a).view()),
                Box::new((*b).view()),
            ),
            AbortsProofNode::DIte(a, b) => Proof::DIte(
                Box::new((*a).view()),
                Box::new((*b).view()),
            ),
            AbortsProofNode::GuardFalse { ob, rest } => Proof::GuardFalse {
                ob: ob as nat,
                rest: Box::new((*rest).view()),
            },
            AbortsProofNode::GuardTrue { ob, rest } => Proof::GuardTrue {
                ob: ob as nat,
                rest: Box::new((*rest).view()),
            },
            AbortsProofNode::Leaf { ob } => Proof::Leaf { ob: ob as nat },
            AbortsProofNode::AndBool(a, b) => Proof::AndBool(
                Box::new((*a).view()),
                Box::new((*b).view()),
            ),
            AbortsProofNode::PIte(a, b) => Proof::PIte(
                Box::new((*a).view()),
                Box::new((*b).view()),
            ),
            AbortsProofNode::BIteBool(a, b) => Proof::BIteBool(
                Box::new((*a).view()),
                Box::new((*b).view()),
            ),
            AbortsProofNode::RequiresApp { req_ob, call_ob } => Proof::RequiresApp {
                req_ob: req_ob as nat,
                call_ob: call_ob as nat,
            },
        }
    }
}

/// What an optional proof holds.
pub open spec fn optional_proof(x: Option<AbortsProofNode>) -> Option<Proof> {
    match x {
        Some(a) => Some(a@),
        None => None,
    }
}

impl Proof {
    /// Whether the proof uses the obligation.
    pub open spec fn uses(self, i: nat) -> bool
        decreases self,
    {
        match self {
            Proof::Rfl => false,
            Proof::OrElse(a, b) => a.uses(i) || b.uses(i),
            Proof::BIte(a, b) => a.uses(i) || b.uses(i),
            Proof::DIte(a, b) => a.uses(i) || b.uses(i),
            Proof::GuardFalse { ob, rest } => ob == i || rest.uses(i),
            Proof::GuardTrue { ob, rest } => ob == i || rest.uses(i),
            Proof::Leaf { ob } => ob == i,
            Proof::AndBool(a, b) => a.uses(i) || b.uses(i),
            Proof::PIte(a, b) => a.uses(i) || b.uses(i),
            Proof::BIteBool(a, b) => a.uses(i) || b.uses(i),
            Proof::RequiresApp { req_ob, call_ob } => req_ob == i || call_ob == i,
        }
    }

    /// The proof with other numbers for the obligations.
    pub open spec fn renumbered(self, f: spec_fn(nat) -> nat) -> Proof
        decreases self,
    {
        match self {
            Proof::Rfl => Proof::Rfl,
            Proof::OrElse(a, b) => Proof::OrElse(
                Box::new(a.renumbered(f)),
                Box::new(b.renumbered(f)),
            ),
            Proof::BIte(a, b) => Proof::BIte(
                Box::new(a.renumbered(f)),
                Box::new(b.renumbered(f)),
            ),
            Proof::DIte(a, b) => Proof::DIte(
                Box::new(a.renumbered(f)),
                Box::new(b.renumbered(f)),
            ),
            Proof::GuardFalse { ob, rest } => Proof::GuardFalse {
                ob: f(ob),
                rest: Box::new(rest.renumbered(f)),
            },
            Proof::GuardTrue { ob, rest } => Proof::GuardTrue {
                ob: f(ob),
                rest: Box::new(rest.renumbered(f)),
            },
            Proof::Leaf { ob } => Proof::Leaf { ob: f(ob) },
            Proof::AndBool(a, b) => Proof::AndBool(
                Box::new(a.renumbered(f)),
                Box::new(b.renumbered(f)),
            ),
            Proof::PIte(a, b) => Proof::PIte(
                Box::new(a.renumbered(f)),
                Box::new(b.renumbered(f)),
            ),
            Proof::BIteBool(a, b) => Proof::BIteBool(
                Box::new(a.renumbered(f)),
                Box::new(b.renumbered(f)),
            ),
            Proof::RequiresApp { req_ob, call_ob } => Proof::RequiresApp {
                req_ob: f(req_ob),
                call_ob: f(call_ob),
            },
        }
    }

    /// How many of the first `k` obligations the proof uses.
    pub open spec fn rank(self, k: nat) -> nat
        decreases k,
    {
        if k == 0 {
            0
        } else {
            self.rank((k - 1) as nat) + if self.uses((k - 1) as nat) {
                1nat
            } else {
                0nat
            }
        }
    }

    /// The obligations among the first `k` that the proof uses, numbered from one.
    pub open spec fn kept(self, obs: Seq<Obligation>, k: nat) -> Seq<Obligation>
        decreases k,
    {
        if k == 0 {
            Seq::empty()
        } else {
            let before = self.kept(obs, (k - 1) as nat);
            if self.uses((k - 1) as nat) {
                before.push(
                    Obligation {
                        name: "ob_"@ + crate::text::decimal(before.len() + 1),
                        ..obs[k - 1]
                    },
                )
            } else {
                before
            }
        }
    }

    /// The proof over the obligations that it uses.
    pub open spec fn compacted(self) -> Proof {
        self.renumbered(|i: nat| self.rank(i))
    }

    /// There are as many kept obligations as used ones.
    pub proof fn lemma_kept_len(self, obs: Seq<Obligation>, k: nat)
        ensures
            self.kept(obs, k).len() == self.rank(k),
            self.rank(k) <= k,
        decreases k,
    {
        if k > 0 {
            self.lemma_kept_len(obs, (k - 1) as nat);
        }
    }

    /// Each used obligation is kept, at the place of its new number.
    pub proof fn law_kept_in_place(self, obs: Seq<Obligation>, k: nat, i: nat)
        requires
            i < k,
            self.uses(i),
        ensures
            self.rank(i) < self.kept(obs, k).len(),
            self.kept(obs, k)[self.rank(i) as int].leaf == obs[i as int].leaf,
            self.kept(obs, k)[self.rank(i) as int].path == obs[i as int].path,
            self.kept(obs, k)[self.rank(i) as int].parameters == obs[i as int].parameters,
        decreases k,
    {
        self.lemma_kept_len(obs, i);
        self.lemma_kept_len(obs, (k - 1) as nat);
        if i < k - 1 {
            self.law_kept_in_place(obs, (k - 1) as nat, i);
        }
    }
}

impl AbortsProofNode {
    /// Whether the proof uses the obligation.
    pub fn uses_ob(&self, i: usize) -> (r: bool)
        ensures
            r == self@.uses(i as nat),
        decreases self,
    {
        match self {
            AbortsProofNode::Rfl => false,
            AbortsProofNode::OrElse(a, b) => a.uses_ob(i) || b.uses_ob(i),
            AbortsProofNode::BIte(a, b) => a.uses_ob(i) || b.uses_ob(i),
            AbortsProofNode::DIte(a, b) => a.uses_ob(i) || b.uses_ob(i),
            AbortsProofNode::GuardFalse { ob, rest } => *ob == i || rest.uses_ob(i),
            AbortsProofNode::GuardTrue { ob, rest } => *ob == i || rest.uses_ob(i),
            AbortsProofNode::Leaf { ob } => *ob == i,
            AbortsProofNode::AndBool(a, b) => a.uses_ob(i) || b.uses_ob(i),
            AbortsProofNode::PIte(a, b) => a.uses_ob(i) || b.uses_ob(i),
            AbortsProofNode::BIteBool(a, b) => a.uses_ob(i) || b.uses_ob(i),
            AbortsProofNode::RequiresApp { req_ob, call_ob } => *req_ob == i || *call_ob == i,
        }
    }

    /// How many of the first `k` obligations the proof uses.
    fn rank_of(&self, k: usize) -> (r: usize)
        ensures
            r == self@.rank(k as nat),
            r <= k,
    {
        let mut n: usize = 0;
        let mut i: usize = 0;
        while i < k
            invariant
                i <= k,
                n <= i,
                n == self@.rank(i as nat),
            decreases k - i,
        {
            if self.uses_ob(i) {
                n += 1;
            }
            i += 1;
        }
        n
    }

    /// The part of the proof over the obligations that the whole uses.
    fn compact_in(&self, whole: &AbortsProofNode) -> (r: AbortsProofNode)
        ensures
            r@ == self@.renumbered(|i: nat| whole@.rank(i)),
        decreases self,
    {
        match self {
            AbortsProofNode::Rfl => AbortsProofNode::Rfl,
            AbortsProofNode::OrElse(a, b) => AbortsProofNode::OrElse(
                Box::new(a.compact_in(whole)),
                Box::new(b.compact_in(whole)),
            ),
            AbortsProofNode::BIte(a, b) => AbortsProofNode::BIte(
                Box::new(a.compact_in(whole)),
                Box::new(b.compact_in(whole)),
            ),
            AbortsProofNode::DIte(a, b) => AbortsProofNode::DIte(
                Box::new(a.compact_in(whole)),
                Box::new(b.compact_in(whole)),
            ),
            AbortsProofNode::GuardFalse { ob, rest } => AbortsProofNode::GuardFalse {
                ob: whole.rank_of(*ob),
                rest: Box::new(rest.compact_in(whole)),
            },
            AbortsProofNode::GuardTrue { ob, rest } => AbortsProofNode::GuardTrue {
                ob: whole.rank_of(*ob),
                rest: Box::new(rest.compact_in(whole)),
            },
            AbortsProofNode::Leaf { ob } => AbortsProofNode::Leaf { ob: whole.rank_of(*ob) },
            AbortsProofNode::AndBool(a, b) => AbortsProofNode::AndBool(
                Box::new(a.compact_in(whole)),
                Box::new(b.compact_in(whole)),
            ),
            AbortsProofNode::PIte(a, b) => AbortsProofNode::PIte(
                Box::new(a.compact_in(whole)),
                Box::new(b.compact_in(whole)),
            ),
            AbortsProofNode::BIteBool(a, b) => AbortsProofNode::BIteBool(
                Box::new(a.compact_in(whole)),
                Box::new(b.compact_in(whole)),
            ),
            AbortsProofNode::RequiresApp { req_ob, call_ob } => AbortsProofNode::RequiresApp {
                req_ob: whole.rank_of(*req_ob),
                call_ob: whole.rank_of(*call_ob),
            },
        }
    }

    /// The proof over the obligations that it uses.
    pub fn remap_obs(&self) -> (r: AbortsProofNode)
        ensures
            r@ == self@.compacted(),
    {
        self.compact_in(self)
    }

    /// The obligations that the proof uses, numbered from one.
    pub fn keep_used(&self, obs: &Vec<AbortsObligation>) -> (r: Vec<AbortsObligation>)
        ensures
            AbortsObligation::views(r@) == self@.kept(
                AbortsObligation::views(obs@),
                obs@.len(),
            ),
    {
        let ghost all = AbortsObligation::views(obs@);
        let n = obs.len();
        let mut out: Vec<AbortsObligation> = Vec::new();
        let mut i: usize = 0;
        assert(AbortsObligation::views(out@) =~= Seq::empty());
        while i < n
            invariant
                n == obs@.len(),
                i <= n,
                all == AbortsObligation::views(obs@),
                AbortsObligation::views(out@) == self@.kept(all, i as nat),
            decreases n - i,
        {
            let ob = &obs[i];
            assert(all[i as int] == ob@);
            if self.uses_ob(i) {
                let ghost before = AbortsObligation::views(out@);
                assert(before.len() == out@.len());
                let number: u128 = out.len() as u128 + 1;
                let renamed = AbortsObligation {
                    name: crate::text::append("ob_", &crate::text::number_text(number)),
                    parameters: crate::program::clone_params(&ob.parameters),
                    path: clone_path(&ob.path),
                    leaf: ob.leaf.copy(),
                };
                out.push(renamed);
                assert(AbortsObligation::views(out@) =~= before.push(renamed@));
            }
            i += 1;
        }
        out
    }
}

/// The bundle of a companion: its obligations, and how they combine.
#[derive(Debug)]
pub struct AbortsBundle {
    pub fn_id: FunctionID,
    pub obligations: Vec<AbortsObligation>,
    pub proof: AbortsProofNode,
}

/// What an [`AbortsBundle`] holds.
#[verifier::ext_equal]
pub struct Bundle {
    pub fn_id: FunctionID,
    pub obligations: Seq<Obligation>,
    pub proof: Proof,
}

impl AbortsBundle {
    /// What the bundle holds.
    pub open spec fn view(&self) -> Bundle {
        Bundle {
            fn_id: self.fn_id,
            obligations: AbortsObligation::views(self.obligations@),
            proof: self.proof@,
        }
    }

    /// What each of the bundles holds.
    pub open spec fn views(s: Seq<AbortsBundle>) -> Seq<Bundle> {
        Seq::new(s.len(), |i: int| s[i]@)
    }
}

} // verus!
