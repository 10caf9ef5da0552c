//! Weights of expressions, and rewriting that makes them lighter.

use crate::ir::Node;
use vstd::prelude::*;

verus! {

impl Node {
    /// The weight of an expression: that of each subexpression, added up.
    pub open spec fn weight(self, w: spec_fn(Node) -> nat) -> nat
        decreases self, self.kids().len() + 1,
    {
        w(self) + self.weight_from(w, 0)
    }

    /// The weight of the direct subexpressions from the `k`th on.
    pub open spec fn weight_from(self, w: spec_fn(Node) -> nat, k: nat) -> nat
        decreases self, self.kids().len() - k,
    {
        if k >= self.kids().len() {
            0
        } else {
            proof {
                self.lemma_kids_decrease();
                assert(decreases_to!(self => self.kids()[k as int]));
            }
            self.kids()[k as int].weight(w) + self.weight_from(w, k + 1)
        }
    }

    /// An expression with other direct subexpressions has these.
    pub proof fn lemma_with_kids(self, ks: Seq<Node>)
        requires
            ks.len() == self.kids().len(),
        ensures
            self.with_kids(ks).kids() == ks,
    {
        assert(self.with_kids(ks).kids() =~= ks);
    }

    /// The weight of an expression with two direct subexpressions.
    pub proof fn lemma_weight_of_two(self, w: spec_fn(Node) -> nat, a: Node, b: Node)
        requires
            self.kids() == seq![a, b],
        ensures
            self.weight(w) == w(self) + a.weight(w) + b.weight(w),
    {
        assert(self.weight_from(w, 2) == 0);
        assert(self.weight_from(w, 1) == self.kids()[1].weight(w) + self.weight_from(w, 2));
        assert(self.weight_from(w, 0) == self.kids()[0].weight(w) + self.weight_from(w, 1));
    }

    /// The weight of an expression with three direct subexpressions.
    pub proof fn lemma_weight_of_three(self, w: spec_fn(Node) -> nat, a: Node, b: Node, c: Node)
        requires
            self.kids() == seq![a, b, c],
        ensures
            self.weight(w) == w(self) + a.weight(w) + b.weight(w) + c.weight(w),
    {
        assert(self.weight_from(w, 3) == 0);
        assert(self.weight_from(w, 2) == self.kids()[2].weight(w) + self.weight_from(w, 3));
        assert(self.weight_from(w, 1) == self.kids()[1].weight(w) + self.weight_from(w, 2));
        assert(self.weight_from(w, 0) == self.kids()[0].weight(w) + self.weight_from(w, 1));
    }

    /// The weight of the subexpressions from the `k`th on, where each is at most as
    /// heavy as in another expression.
    pub proof fn lemma_weight_from(self, other: Node, w: spec_fn(Node) -> nat, k: nat)
        requires
            self.kids().len() == other.kids().len(),
            forall|i: int|
                k <= i < self.kids().len() ==> (#[trigger] self.kids()[i]).weight(w)
                    <= other.kids()[i].weight(w),
        ensures
            self.weight_from(w, k) <= other.weight_from(w, k),
            (exists|i: int|
                k <= i < self.kids().len() && (#[trigger] self.kids()[i]).weight(w)
                    < other.kids()[i].weight(w)) ==> self.weight_from(w, k) < other.weight_from(
                w,
                k,
            ),
        decreases self.kids().len() - k,
    {
        if k < self.kids().len() {
            self.lemma_weight_from(other, w, k + 1);
            assert(self.kids()[k as int].weight(w) <= other.kids()[k as int].weight(w));
            if exists|i: int|
                k <= i < self.kids().len() && (#[trigger] self.kids()[i]).weight(w)
                    < other.kids()[i].weight(w) {
                let i = choose|i: int|
                    k <= i < self.kids().len() && (#[trigger] self.kids()[i]).weight(w)
                        < other.kids()[i].weight(w);
                if i > k {
                    assert(k + 1 <= i && self.kids()[i].weight(w) < other.kids()[i].weight(w));
                }
            }
        }
    }

    /// A step that leaves an expression alone or makes it lighter does the same
    /// when it is applied throughout.
    pub proof fn lemma_map_lighter(self, f: spec_fn(Node) -> Node, w: spec_fn(Node) -> nat)
        requires
            forall|n: Node| #[trigger] f(n) == n || f(n).weight(w) < n.weight(w),
            forall|n: Node| w(#[trigger] n.with_kids(n.mapped_kids(f))) <= w(n),
        ensures
            self.map(f) == self || self.map(f).weight(w) < self.weight(w),
        decreases self,
    {
        self.lemma_kids_decrease();
        let ks = self.kids();
        let ms = self.mapped_kids(f);
        assert forall|i: int| 0 <= i < ks.len() implies #[trigger] ms[i] == ks[i] || ms[i].weight(
            w,
        ) < ks[i].weight(w) by {
            ks[i].lemma_map_lighter(f, w);
            assert(ms[i] == ks[i].map(f));
        }
        let rebuilt = self.with_kids(ms);
        self.lemma_with_kids(ms);
        if ms =~= ks {
            self.lemma_with_own_kids();
            assert(rebuilt == self);
        } else {
            assert(ms.len() == ks.len());
            let i = choose|i: int| 0 <= i < ks.len() && ms[i] != ks[i];
            assert(ms[i].weight(w) < ks[i].weight(w));
            assert forall|i: int| 0 <= i < rebuilt.kids().len() implies (
            #[trigger] rebuilt.kids()[i]).weight(w) <= ks[i].weight(w) by {
                assert(ms[i] == ks[i] || ms[i].weight(w) < ks[i].weight(w));
            }
            assert(rebuilt.kids()[i].weight(w) < self.kids()[i].weight(w));
            rebuilt.lemma_weight_from(self, w, 0);
            assert(rebuilt.weight(w) < self.weight(w));
        }
        assert(f(rebuilt) == rebuilt || f(rebuilt).weight(w) < rebuilt.weight(w));
    }
}

/// The weight that counts subexpressions.
pub open spec fn one_each() -> spec_fn(Node) -> nat {
    |n: Node| 1nat
}

impl Node {
    /// Whether a walk along calls, bindings and branches enters the expression.
    pub open spec fn walks(self) -> bool {
        self is Let || self is If || self is Match || self is Call
    }

    /// The number of subexpressions that such a walk reaches, the expression itself
    /// included.
    pub open spec fn load(self) -> nat
        decreases self, self.kids().len() + 1,
    {
        if self.walks() {
            1 + self.load_from(0)
        } else {
            1
        }
    }

    /// The number of subexpressions that such a walk reaches inside the direct
    /// subexpressions from the `k`th on.
    pub open spec fn load_from(self, k: nat) -> nat
        decreases self, self.kids().len() - k,
    {
        if k >= self.kids().len() {
            0
        } else {
            proof {
                self.lemma_kids_decrease();
                assert(decreases_to!(self => self.kids()[k as int]));
            }
            self.kids()[k as int].load() + self.load_from(k + 1)
        }
    }

    /// A direct subexpression is counted.
    proof fn lemma_load_from(self, k: nat, i: int)
        requires
            k <= i < self.kids().len(),
        ensures
            self.kids()[i].load() <= self.load_from(k),
        decreases i - k,
    {
        if k < i {
            self.lemma_load_from(k + 1, i);
        }
    }

    /// A walk reaches less from a direct subexpression.
    pub proof fn lemma_load_kid(self, i: int)
        requires
            self.walks(),
            0 <= i < self.kids().len(),
        ensures
            self.kids()[i].load() < self.load(),
    {
        self.lemma_load_from(0, i);
    }

    /// A walk reaches no more where it reaches no more in any direct subexpression.
    proof fn lemma_load_from_lighter(self, other: Node, k: nat)
        requires
            self.kids().len() <= other.kids().len(),
            forall|i: int|
                k <= i < self.kids().len() ==> (#[trigger] self.kids()[i]).load()
                    <= other.kids()[i].load(),
        ensures
            self.load_from(k) <= other.load_from(k),
        decreases self.kids().len() - k,
    {
        if k < self.kids().len() {
            self.lemma_load_from_lighter(other, k + 1);
            assert(self.kids()[k as int].load() <= other.kids()[k as int].load());
        }
    }

    /// A walk reaches no more where it reaches no more in any direct subexpression.
    pub proof fn lemma_load_lighter(self, other: Node)
        requires
            other.walks(),
            self.kids().len() <= other.kids().len(),
            forall|i: int|
                0 <= i < self.kids().len() ==> (#[trigger] self.kids()[i]).load()
                    <= other.kids()[i].load(),
        ensures
            self.load() <= other.load(),
    {
        self.lemma_load_from_lighter(other, 0);
    }
}

} // verus!
