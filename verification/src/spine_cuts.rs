//! Cutting an expression along its bindings and checks into a chain of segments.

use crate::cut_types::{clone_known, known_views, register_pattern, try_type, Known};
use crate::ir::{clone_names, IRNode, Node};
use crate::program::{Prog, Program};
use crate::segments::{has_proof_name, seg_call, Parent, Session, St, Whole};
use crate::sizes::approx_size;
use crate::traverse::free_vars;
use crate::types::{FunctionID, Name, TempId, Type};
use vstd::prelude::*;

verus! {

/// The length from which on a segment ends, and a part is cut out.
pub const CHUNK: usize = 12000;

/// The least length of what is left behind a cut.
pub const MIN_TAIL: usize = 6000;

/// One step along an expression: a binding, or a check whose failure ends it.
#[verifier::ext_equal]
pub enum StepOf {
    Bind { pattern: Seq<Name>, value: Node },
    Check { scrutinee: Node, binding: Name, some_branch: Node },
}

/// The executable [`StepOf`].
pub enum Step {
    Bind { pattern: Vec<TempId>, value: IRNode },
    Check { scrutinee: IRNode, binding: TempId, some_branch: IRNode },
}

impl Step {
    /// What the step holds.
    pub open spec fn view(&self) -> StepOf {
        match *self {
            Step::Bind { pattern, value } => StepOf::Bind {
                pattern: crate::ir::names(pattern@),
                value: value@,
            },
            Step::Check { scrutinee, binding, some_branch } => StepOf::Check {
                scrutinee: scrutinee@,
                binding: binding@,
                some_branch: some_branch@,
            },
        }
    }

    /// What each of the steps holds.
    pub open spec fn views(s: Seq<Step>) -> Seq<StepOf> {
        Seq::new(s.len(), |i: int| s[i]@)
    }
}

/// The expression that a step and what follows it make up.
pub open spec fn stepped(step: StepOf, rest: Node) -> Node {
    match step {
        StepOf::Bind { pattern, value } => Node::Let {
            pattern,
            value: Box::new(value),
            body: Box::new(rest),
        },
        StepOf::Check { scrutinee, binding, some_branch } => Node::MatchOption {
            scrutinee: Box::new(scrutinee),
            binding,
            some_branch: Box::new(some_branch),
            none_branch: Box::new(rest),
        },
    }
}

/// The expression that steps and what follows them make up.
pub open spec fn rebuilt(steps: Seq<StepOf>, tail: Node) -> Node
    decreases steps.len(),
{
    if steps.len() == 0 {
        tail
    } else {
        rebuilt(steps.drop_last(), stepped(steps.last(), tail))
    }
}

/// The steps along an expression.
pub open spec fn steps_of(n: Node) -> Seq<StepOf>
    decreases n,
{
    match n {
        Node::Let { pattern, value, body } => seq![StepOf::Bind { pattern, value: *value }]
            + steps_of(*body),
        Node::MatchOption { scrutinee, binding, some_branch, none_branch } => seq![
            StepOf::Check { scrutinee: *scrutinee, binding, some_branch: *some_branch },
        ] + steps_of(*none_branch),
        _ => Seq::empty(),
    }
}

/// What stands behind the steps along an expression.
pub open spec fn end_of(n: Node) -> Node
    decreases n,
{
    match n {
        Node::Let { body, .. } => end_of(*body),
        Node::MatchOption { none_branch, .. } => end_of(*none_branch),
        _ => n,
    }
}

/// An expression is its steps and what stands behind them.
pub proof fn law_steps_round_trip(n: Node)
    ensures
        rebuilt(steps_of(n), end_of(n)) == n,
    decreases n,
{
    match n {
        Node::Let { pattern, value, body } => {
            law_steps_round_trip(*body);
            lemma_rebuilt_front(
                StepOf::Bind { pattern, value: *value },
                steps_of(*body),
                end_of(*body),
            );
        },
        Node::MatchOption { scrutinee, binding, some_branch, none_branch } => {
            law_steps_round_trip(*none_branch);
            lemma_rebuilt_front(
                StepOf::Check { scrutinee: *scrutinee, binding, some_branch: *some_branch },
                steps_of(*none_branch),
                end_of(*none_branch),
            );
        },
        _ => {},
    }
}

/// The first step stands outside the others.
pub proof fn lemma_rebuilt_front(first: StepOf, rest: Seq<StepOf>, tail: Node)
    ensures
        rebuilt(seq![first] + rest, tail) == stepped(first, rebuilt(rest, tail)),
    decreases rest.len(),
{
    let all = seq![first] + rest;
    if rest.len() == 0 {
        assert(all.drop_last() =~= Seq::empty());
        assert(all.last() == first);
        assert(rebuilt(all.drop_last(), stepped(first, tail)) == stepped(first, tail));
    } else {
        assert(all.drop_last() =~= seq![first] + rest.drop_last());
        assert(all.last() == rest.last());
        lemma_rebuilt_front(first, rest.drop_last(), stepped(rest.last(), tail));
    }
}

/// Puts the steps from `from` on, up to `to`, around an expression.
fn rebuild(steps: &Vec<Step>, from: usize, to: usize, tail: IRNode) -> (r: IRNode)
    requires
        from <= to <= steps@.len(),
    ensures
        r@ == rebuilt(Step::views(steps@).subrange(from as int, to as int), tail@),
{
    let ghost all = Step::views(steps@);
    let ghost goal = rebuilt(all.subrange(from as int, to as int), tail@);
    let mut i: usize = to;
    let mut cur = tail;
    while i > from
        invariant
            from <= i <= to,
            to <= steps@.len(),
            all == Step::views(steps@),
            goal == rebuilt(all.subrange(from as int, i as int), cur@),
        decreases i,
    {
        let ghost part = all.subrange(from as int, i as int);
        assert(part.last() == steps@[i - 1]@);
        assert(part.drop_last() =~= all.subrange(from as int, i - 1));
        cur = match &steps[i - 1] {
            Step::Bind { pattern, value } => IRNode::Let {
                pattern: clone_names(pattern),
                value: Box::new(value.clone()),
                body: Box::new(cur),
            },
            Step::Check { scrutinee, binding, some_branch } => IRNode::MatchOption {
                scrutinee: Box::new(scrutinee.clone()),
                binding: binding.clone(),
                some_branch: Box::new(some_branch.clone()),
                none_branch: Box::new(cur),
            },
        };
        i -= 1;
    }
    assert(all.subrange(from as int, i as int) =~= Seq::empty());
    cur
}

/// Whether an abort stands in the expression outside the sides of branches.
pub open spec fn abort_shows(n: Node) -> bool
    decreases n, 1nat,
{
    match n {
        Node::Abort { .. } => true,
        Node::If { cond, .. } => abort_shows(*cond),
        _ => abort_shows_in_kid(n),
    }
}

/// Whether an abort stands in a direct subexpression outside the sides of branches.
pub open spec fn abort_shows_in_kid(n: Node) -> bool
    decreases n, 0nat,
{
    proof {
        n.lemma_kids_decrease();
    }
    exists|i: int| 0 <= i < n.kids().len() && abort_shows(#[trigger] n.kids()[i])
}

/// Whether an abort stands in the expression outside the sides of branches.
fn abort_exposed(node: &IRNode) -> (r: bool)
    ensures
        r == abort_shows(node@),
    decreases node@,
{
    match node {
        IRNode::Abort { .. } => true,
        IRNode::If { cond, .. } => {
            proof {
                node@.lemma_kids_decrease();
                assert(node@.kids()[0] == (*cond)@);
            }
            abort_exposed(cond)
        },
        _ => {
            let ks = node.children();
            let mut i: usize = 0;
            proof {
                node@.lemma_kids_decrease();
            }
            while i < ks.len()
                invariant
                    i <= ks.len(),
                    ks@.len() == node@.kids().len(),
                    forall|j: int| 0 <= j < ks@.len() ==> (#[trigger] ks@[j])@ == node@.kids()[j],
                    forall|j: int| 0 <= j < i ==> !abort_shows(#[trigger] node@.kids()[j]),
                    forall|j: int| 0 <= j < node@.kids().len() ==> decreases_to!(
                        node@ => #[trigger] node@.kids()[j]
                    ),
                    !(node@ is Abort),
                    !(node@ is If),
                decreases ks.len() - i,
            {
                assert(ks@[i as int]@ == node@.kids()[i as int]);
                if abort_exposed(ks[i]) {
                    assert(abort_shows_in_kid(node@));
                    return true;
                }
                i += 1;
            }
            assert(!abort_shows_in_kid(node@));
            false
        },
    }
}

/// The scopes before each step of an expression, and behind the last.
pub open spec fn scopes_at(n: Node, known: Known, p: Prog) -> Seq<Known>
    decreases n,
{
    seq![known] + match n {
        Node::Let { pattern, value, body } => scopes_at(
            *body,
            crate::cut_types::behind(
                known,
                pattern,
                crate::cut_types::told_type(*value, known, p),
            ),
            p,
        ),
        Node::MatchOption { none_branch, .. } => scopes_at(*none_branch, known, p),
        _ => Seq::empty(),
    }
}

/// What a list of scopes holds.
pub open spec fn scope_views(s: Seq<Vec<(TempId, Option<Type>)>>) -> Seq<Known> {
    Seq::new(s.len(), |i: int| known_views(s[i]@))
}

/// Adds the scopes before each step of an expression, and behind the last.
fn add_scopes(
    node: &IRNode,
    known: Vec<(TempId, Option<Type>)>,
    program: &Program,
    out: &mut Vec<Vec<(TempId, Option<Type>)>>,
)
    ensures
        scope_views(final(out)@) == scope_views(old(out)@) + scopes_at(
            node@,
            known_views(known@),
            program@,
        ),
    decreases node,
{
    let ghost start = scope_views(out@);
    let ghost kv = known_views(known@);
    let mut inner = clone_known(&known);
    out.push(known);
    assert(scope_views(out@) =~= start.push(kv));
    match node {
        IRNode::Let { pattern, value, body } => {
            let t = try_type(value, &inner, program);
            register_pattern(&mut inner, pattern, &t);
            add_scopes(body, inner, program, out);
        },
        IRNode::MatchOption { none_branch, .. } => {
            add_scopes(none_branch, inner, program, out);
        },
        _ => {},
    }
    assert(scope_views(out@) =~= start + scopes_at(node@, kv, program@));
}

/// There is one scope more than steps.
proof fn lemma_scopes_len(n: Node, known: Known, p: Prog)
    ensures
        scopes_at(n, known, p).len() == steps_of(n).len() + 1,
    decreases n,
{
    match n {
        Node::Let { pattern, value, body } => {
            lemma_scopes_len(
                *body,
                crate::cut_types::behind(
                    known,
                    pattern,
                    crate::cut_types::told_type(*value, known, p),
                ),
                p,
            );
        },
        Node::MatchOption { none_branch, .. } => {
            lemma_scopes_len(*none_branch, known, p);
        },
        _ => {},
    }
}

/// Whether the type of each free variable of the expression can be told, or it is a
/// proof parameter.
pub open spec fn typed(w: Whole, n: Node, known: Known) -> bool {
    forall|x: Name|
        #[trigger] n.free(x) ==> is_typed(w, known, x)
}

/// Whether the type of the variable can be told, or it is a proof parameter.
pub open spec fn is_typed(w: Whole, known: Known, x: Name) -> bool {
    crate::segments::is_proof_name(w, x) || (crate::assoc::found(known, x) matches Some(t)
        && t is Some)
}

/// Whether the type of each free variable of the expression can be told, or it is a
/// proof parameter.
pub fn all_typed(w: &Parent, node: &IRNode, known: &Vec<(TempId, Option<Type>)>) -> (r: bool)
    ensures
        r == typed(w@, node@, known_views(known@)),
{
    let frees = free_vars(node);
    let ghost fs = crate::ir::names(frees@);
    let ghost kv = known_views(known@);
    let mut i: usize = 0;
    while i < frees.len()
        invariant
            i <= frees.len(),
            fs == crate::ir::names(frees@),
            kv == known_views(known@),
            forall|x: Name| #[trigger] fs.contains(x) <==> node@.free(x),
            forall|j: int| 0 <= j < i ==> is_typed(w@, kv, #[trigger] fs[j]),
        decreases frees.len() - i,
    {
        assert(fs[i as int] == frees@[i as int]@);
        assert(fs.contains(fs[i as int]));
        proof {
            crate::cut_types::lemma_known_keys(known@);
        }
        let ok = has_proof_name(w, &frees[i]) || match crate::assoc::place_of(known, &frees[i]) {
            Some(k) => {
                assert(kv[k as int].1 == crate::scope::optional_ty(known@[k as int].1));
                known[k].1.is_some()
            },
            None => false,
        };
        if !ok {
            assert(node@.free(fs[i as int]));
            return false;
        }
        i += 1;
    }
    assert forall|x: Name| #[trigger] node@.free(x) implies is_typed(w@, kv, x) by {
        assert(fs.contains(x));
        let j = choose|j: int| 0 <= j < fs.len() && fs[j] == x;
        assert(is_typed(w@, kv, fs[j]));
    }
    true
}

/// The length of a step.
pub open spec fn step_len(s: StepOf) -> nat {
    match s {
        StepOf::Bind { value, .. } => crate::sizes::text_len(value) + 8,
        StepOf::Check { scrutinee, some_branch, .. } => crate::sizes::text_len(scrutinee)
            + crate::sizes::text_len(some_branch) + 8,
    }
}

/// The length of the steps from the `i`th on, and of what stands behind them.
pub open spec fn rest_len(steps: Seq<StepOf>, tail: Node, i: nat) -> nat
    decreases steps.len() - i,
{
    if i >= steps.len() {
        crate::sizes::text_len(tail)
    } else {
        step_len(steps[i as int]) + rest_len(steps, tail, i + 1)
    }
}

/// Where the steps are cut, from the `i`th on, when the segment under way has the
/// given length: behind each step at which the segment is long enough and enough
/// is left.
pub open spec fn cut_points(steps: Seq<StepOf>, tail: Node, i: nat, len: nat) -> Seq<nat>
    decreases steps.len() - i,
{
    if i >= steps.len() {
        Seq::empty()
    } else {
        let longer = len + step_len(steps[i as int]);
        if longer >= CHUNK && rest_len(steps, tail, i + 1) >= MIN_TAIL {
            seq![i + 1] + cut_points(steps, tail, i + 1, 0)
        } else {
            cut_points(steps, tail, i + 1, longer)
        }
    }
}

/// The steps at which segments begin, and the end.
pub open spec fn bounds(steps: Seq<StepOf>, tail: Node) -> Seq<nat> {
    seq![0nat] + cut_points(steps, tail, 0, 0) + seq![steps.len()]
}

/// A part of an expression with a segment in its place, where it is long.
pub open spec fn cut_out(n: Node, s: St, w: Whole, known: Known) -> (Node, St)
    decreases n, 2nat,
{
    if crate::sizes::text_len(n) > CHUNK {
        let (id, s1) = segmented(n, s, w, known);
        match id {
            Some(f) => (crate::segments::segment_call(s1.p, f), s1),
            None => (n, s1),
        }
    } else {
        (n, s)
    }
}

/// The steps of an expression and what stands behind them, with the long
/// scrutinees and final sides cut out; the scopes are those from the `i`th on.
pub open spec fn shrunk(n: Node, s: St, w: Whole, scopes: Seq<Known>, i: nat) -> (
    Seq<StepOf>,
    Node,
    St,
)
    decreases n, 0nat,
{
    match n {
        Node::Let { pattern, value, body } => {
            let (rest, end, s1) = shrunk(*body, s, w, scopes, i + 1);
            (seq![StepOf::Bind { pattern, value: *value }] + rest, end, s1)
        },
        Node::MatchOption { scrutinee, binding, some_branch, none_branch } => {
            let (c, s1) = cut_out(*scrutinee, s, w, scopes[i as int]);
            let (rest, end, s2) = shrunk(*none_branch, s1, w, scopes, i + 1);
            (
                seq![StepOf::Check { scrutinee: c, binding, some_branch: *some_branch }] + rest,
                end,
                s2,
            )
        },
        Node::If { cond, then_branch, else_branch } => {
            let (t, s1) = if abort_shows(*then_branch) {
                (*then_branch, s)
            } else {
                cut_out(*then_branch, s, w, scopes[i as int])
            };
            let (e, s2) = if abort_shows(*else_branch) {
                (*else_branch, s1)
            } else {
                cut_out(*else_branch, s1, w, scopes[i as int])
            };
            (
                Seq::empty(),
                Node::If { cond, then_branch: Box::new(t), else_branch: Box::new(e) },
                s2,
            )
        },
        _ => (Seq::empty(), n, s),
    }
}

/// The segments of an expression, from the `j`th back to the first; one that cannot
/// be made stays in the one before it.
pub open spec fn chain_made(
    s: St,
    w: Whole,
    steps: Seq<StepOf>,
    cuts: Seq<nat>,
    scopes: Seq<Known>,
    j: nat,
    tail: Node,
) -> (Option<FunctionID>, St)
    decreases j,
{
    let body = rebuilt(steps.subrange(cuts[j as int] as int, cuts[j as int + 1] as int), tail);
    let (id, s1) = crate::segments::segment_made(s, w, body, scopes[cuts[j as int] as int]);
    if j == 0 {
        (id, s1)
    } else {
        chain_made(
            s1,
            w,
            steps,
            cuts,
            scopes,
            (j - 1) as nat,
            match id {
                Some(f) => crate::segments::segment_call(s1.p, f),
                None => body,
            },
        )
    }
}

/// The first segment of an expression that is cut into a chain of segments; none
/// where the type of a variable of it cannot be told.
pub open spec fn segmented(n: Node, s: St, w: Whole, known: Known) -> (Option<FunctionID>, St)
    decreases n, 1nat,
{
    if !typed(w, n, known) {
        (None, s)
    } else {
        let scopes = scopes_at(n, known, s.p);
        let (steps, end, s1) = shrunk(n, s, w, scopes, 0);
        let cuts = bounds(steps, end);
        chain_made(s1, w, steps, cuts, scopes, (cuts.len() - 2) as nat, end)
    }
}

/// As many steps are left as there were.
proof fn lemma_shrunk_len(n: Node, s: St, w: Whole, scopes: Seq<Known>, i: nat)
    ensures
        shrunk(n, s, w, scopes, i).0.len() == steps_of(n).len(),
    decreases n,
{
    match n {
        Node::Let { body, .. } => {
            lemma_shrunk_len(*body, s, w, scopes, i + 1);
        },
        Node::MatchOption { scrutinee, none_branch, .. } => {
            let (c, s1) = cut_out(*scrutinee, s, w, scopes[i as int]);
            lemma_shrunk_len(*none_branch, s1, w, scopes, i + 1);
        },
        _ => {},
    }
}

/// The cuts stand in order between the steps.
pub proof fn lemma_cut_points(steps: Seq<StepOf>, tail: Node, i: nat, len: nat)
    requires
        i <= steps.len(),
    ensures
        ({
            let c = cut_points(steps, tail, i, len);
            &&& forall|k: int| 0 <= k < c.len() ==> i < #[trigger] c[k] <= steps.len()
            &&& forall|k: int, m: int| 0 <= k < m < c.len() ==> #[trigger] c[k] < #[trigger] c[m]
        }),
    decreases steps.len() - i,
{
    if i < steps.len() {
        let longer = len + step_len(steps[i as int]);
        lemma_cut_points(steps, tail, i + 1, 0);
        lemma_cut_points(steps, tail, i + 1, longer);
        let c = cut_points(steps, tail, i, len);
        if longer >= CHUNK && rest_len(steps, tail, i + 1) >= MIN_TAIL {
            let r = cut_points(steps, tail, i + 1, 0);
            assert(c =~= seq![i + 1] + r);
            assert forall|k: int| 0 <= k < c.len() implies i < #[trigger] c[k] <= steps.len() by {
                if k > 0 {
                    assert(c[k] == r[k - 1]);
                }
            }
            assert forall|k: int, m: int| 0 <= k < m < c.len() implies #[trigger] c[k]
                < #[trigger] c[m] by {
                assert(c[m] == r[m - 1]);
                if k > 0 {
                    assert(c[k] == r[k - 1]);
                }
            }
        } else {
            let r = cut_points(steps, tail, i + 1, longer);
            assert(c == r);
            assert forall|k: int| 0 <= k < c.len() implies i < #[trigger] c[k] <= steps.len() by {
                assert(i + 1 < r[k]);
            }
        }
    }
}

/// Whether the `k`th segment ends behind its begin, within the steps.
pub open spec fn ends_within(b: Seq<nat>, k: int, n: nat) -> bool {
    b[k] <= b[k + 1] <= n
}

/// The bounds of the segments stand in order: nothing is lost and nothing occurs
/// twice.
pub proof fn law_segments_partition(steps: Seq<StepOf>, tail: Node)
    ensures
        ({
            let b = bounds(steps, tail);
            &&& b.len() >= 2
            &&& b[0] == 0
            &&& b.last() == steps.len()
            &&& forall|k: int| 0 <= k < b.len() - 1 ==> #[trigger] ends_within(b, k, steps.len())
        }),
{
    lemma_cut_points(steps, tail, 0, 0);
    let c = cut_points(steps, tail, 0, 0);
    let b = bounds(steps, tail);
    assert forall|k: int| 0 <= k < b.len() - 1 implies #[trigger] ends_within(
        b,
        k,
        steps.len(),
    ) by {
        if k == 0 {
            if c.len() > 0 {
                assert(b[1] == c[0]);
            }
        } else if k < c.len() {
            assert(b[k] == c[k - 1]);
            assert(b[k + 1] == c[k]);
        } else {
            assert(b[k] == c[k - 1]);
        }
    }
}

/// The length of a step, at most the largest number.
fn step_size(s: &Step) -> (r: usize)
    ensures
        r <= step_len(s@),
        r == step_len(s@) || r == usize::MAX,
{
    match s {
        Step::Bind { value, .. } => approx_size(value).saturating_add(8),
        Step::Check { scrutinee, some_branch, .. } => approx_size(scrutinee).saturating_add(
            approx_size(some_branch),
        ).saturating_add(8),
    }
}

/// Whether a number with an upper limit is the given one, or at the limit.
spec fn capped(r: usize, n: nat) -> bool {
    r <= n && (r == n || r == usize::MAX)
}

/// The lengths of the steps from each on, and of what stands behind them, at most
/// the largest number.
fn rest_sizes(steps: &Vec<Step>, tail: &IRNode) -> (r: Vec<usize>)
    ensures
        r@.len() == steps@.len() + 1,
        forall|i: int|
            0 <= i <= steps@.len() ==> capped(
                #[trigger] r@[steps@.len() - i],
                rest_len(Step::views(steps@), tail@, i as nat),
            ),
{
    let ghost all = Step::views(steps@);
    let mut out: Vec<usize> = Vec::new();
    out.push(approx_size(tail));
    let mut i: usize = steps.len();
    while i > 0
        invariant
            i <= steps@.len(),
            all == Step::views(steps@),
            out@.len() == steps@.len() - i + 1,
            forall|k: int|
                0 <= k < out@.len() ==> capped(
                    #[trigger] out@[k],
                    rest_len(all, tail@, (steps@.len() - k) as nat),
                ),
        decreases i,
    {
        let size = step_size(&steps[i - 1]);
        assert(all[i - 1] == steps@[i - 1]@);
        let last = out[out.len() - 1];
        assert(capped(last, rest_len(all, tail@, i as nat)));
        let sum = last.saturating_add(size);
        assert(capped(sum, rest_len(all, tail@, (i - 1) as nat)));
        out.push(sum);
        i -= 1;
    }
    assert forall|i: int| 0 <= i <= steps@.len() implies capped(
        #[trigger] out@[steps@.len() - i],
        rest_len(all, tail@, i as nat),
    ) by {
        let k = steps@.len() - i;
        assert(capped(out@[k], rest_len(all, tail@, (steps@.len() - k) as nat)));
    }
    out
}

/// What a list of places holds.
pub open spec fn place_views(s: Seq<usize>) -> Seq<nat> {
    Seq::new(s.len(), |i: int| s[i] as nat)
}

/// The steps at which segments begin, and the end.
fn find_bounds(steps: &Vec<Step>, tail: &IRNode) -> (r: Vec<usize>)
    ensures
        place_views(r@) == bounds(Step::views(steps@), tail@),
{
    let ghost all = Step::views(steps@);
    let rests = rest_sizes(steps, tail);
    let n = steps.len();
    let mut out: Vec<usize> = Vec::new();
    out.push(0);
    let ghost goal = bounds(all, tail@);
    let mut len: usize = 0;
    let ghost mut exact: nat = 0;
    let mut i: usize = 0;
    assert(place_views(out@) =~= seq![0nat]);
    while i < n
        invariant
            i <= n,
            n == steps@.len(),
            all == Step::views(steps@),
            goal == bounds(all, tail@),
            capped(len, exact),
            rests@.len() == n + 1,
            forall|k: int|
                0 <= k <= n ==> capped(
                    #[trigger] rests@[n - k],
                    rest_len(all, tail@, k as nat),
                ),
            goal == place_views(out@) + cut_points(all, tail@, i as nat, exact) + seq![n as nat],
        decreases n - i,
    {
        let size = step_size(&steps[i]);
        assert(all[i as int] == steps@[i as int]@);
        let longer = len.saturating_add(size);
        let ghost exact_longer = exact + step_len(all[i as int]);
        assert(capped(longer, exact_longer));
        assert(capped(rests@[n - (i + 1)], rest_len(all, tail@, (i + 1) as nat)));
        let left = rests[n - (i + 1)];
        let ghost before = place_views(out@);
        if longer >= CHUNK && left >= MIN_TAIL {
            out.push(i + 1);
            len = 0;
            proof {
                exact = 0;
            }
            assert(place_views(out@) =~= before.push((i + 1) as nat));
            assert(place_views(out@) + cut_points(all, tail@, (i + 1) as nat, 0) + seq![n as nat]
                =~= before + (seq![(i + 1) as nat] + cut_points(all, tail@, (i + 1) as nat, 0))
                + seq![n as nat]);
        } else {
            len = longer;
            proof {
                exact = exact_longer;
            }
        }
        i += 1;
    }
    let ghost before = place_views(out@);
    assert(before + cut_points(all, tail@, n as nat, exact) + seq![n as nat] =~= before.push(
        n as nat,
    ));
    out.push(n);
    assert(place_views(out@) =~= before.push(n as nat));
    out
}

impl Session {
    /// Cuts a part out where it is long.
    fn cut_part(&mut self, w: &Parent, node: &IRNode, known: &Vec<(TempId, Option<Type>)>) -> (r:
        IRNode)
        ensures
            (r@, final(self)@) == cut_out(node@, old(self)@, w@, known_views(known@)),
        decreases node, 2nat,
    {
        if approx_size(node) > CHUNK {
            match self.segment_spine(w, node, known) {
                Some(f) => seg_call(&self.program, f),
                None => node.clone(),
            }
        } else {
            node.clone()
        }
    }

    /// Collects the steps of an expression, with the long scrutinees and final sides
    /// cut out.
    fn shrink(
        &mut self,
        w: &Parent,
        node: &IRNode,
        scopes: &Vec<Vec<(TempId, Option<Type>)>>,
        i: usize,
        out: &mut Vec<Step>,
    ) -> (r: IRNode)
        requires
            i + steps_of(node@).len() < scopes.len(),
        ensures
            ({
                let (steps, end, s1) = shrunk(
                    node@,
                    old(self)@,
                    w@,
                    scope_views(scopes@),
                    i as nat,
                );
                &&& Step::views(final(out)@) == Step::views(old(out)@) + steps
                &&& r@ == end
                &&& final(self)@ == s1
            }),
        decreases node, 0nat,
    {
        let ghost start = Step::views(out@);
        let ghost before = out@;
        let ghost s = self@;
        let ghost sv = scope_views(scopes@);
        assert(sv[i as int] == known_views(scopes@[i as int]@));
        match node {
            IRNode::Let { pattern, value, body } => {
                let step = Step::Bind { pattern: clone_names(pattern), value: (**value).clone() };
                out.push(step);
                assert(Step::views(out@) =~= start.push(step@));
                let end = self.shrink(w, body, scopes, i + 1, out);
                assert(Step::views(out@) =~= start + shrunk(node@, s, w@, sv, i as nat).0);
                end
            },
            IRNode::MatchOption { scrutinee, binding, some_branch, none_branch } => {
                let c = self.cut_part(w, scrutinee, &scopes[i]);
                let step = Step::Check {
                    scrutinee: c,
                    binding: binding.clone(),
                    some_branch: (**some_branch).clone(),
                };
                out.push(step);
                assert(Step::views(out@) =~= start.push(step@));
                let end = self.shrink(w, none_branch, scopes, i + 1, out);
                assert(Step::views(out@) =~= start + shrunk(node@, s, w@, sv, i as nat).0);
                end
            },
            IRNode::If { cond, then_branch, else_branch } => {
                assert(start =~= start + Seq::empty());
                let t = if abort_exposed(then_branch) {
                    (**then_branch).clone()
                } else {
                    self.cut_part(w, then_branch, &scopes[i])
                };
                let e = if abort_exposed(else_branch) {
                    (**else_branch).clone()
                } else {
                    self.cut_part(w, else_branch, &scopes[i])
                };
                IRNode::If {
                    cond: Box::new((**cond).clone()),
                    then_branch: Box::new(t),
                    else_branch: Box::new(e),
                }
            },
            _ => {
                assert(start =~= start + Seq::empty());
                node.clone()
            },
        }
    }

    /// Cuts an expression into a chain of segments, and gives the first.
    pub fn segment_spine(
        &mut self,
        w: &Parent,
        node: &IRNode,
        known: &Vec<(TempId, Option<Type>)>,
    ) -> (r: Option<FunctionID>)
        ensures
            (r, final(self)@) == segmented(node@, old(self)@, w@, known_views(known@)),
        decreases node, 1nat,
    {
        let ghost s = self@;
        let ghost kv = known_views(known@);
        if !all_typed(w, node, known) {
            return None;
        }
        let mut scopes: Vec<Vec<(TempId, Option<Type>)>> = Vec::new();
        assert(scope_views(scopes@) =~= Seq::empty());
        add_scopes(node, clone_known(known), &self.program, &mut scopes);
        let ghost sv = scopes_at(node@, kv, s.p);
        assert(scope_views(scopes@) =~= sv);
        proof {
            lemma_scopes_len(node@, kv, s.p);
            lemma_shrunk_len(node@, s, w@, sv, 0);
        }
        assert(scopes@.len() == sv.len());
        let mut steps: Vec<Step> = Vec::new();
        assert(Step::views(steps@) =~= Seq::empty());
        let end = self.shrink(w, node, &scopes, 0, &mut steps);
        assert(Step::views(steps@) =~= shrunk(node@, s, w@, sv, 0).0);
        let cuts = find_bounds(&steps, &end);
        let ghost cv = bounds(Step::views(steps@), end@);
        proof {
            law_segments_partition(Step::views(steps@), end@);
        }
        assert(cuts@.len() == cv.len());
        self.make_chain(w, &steps, &cuts, &scopes, cuts.len() - 2, end)
    }

    /// Makes the segments from the `j`th back to the first.
    fn make_chain(
        &mut self,
        w: &Parent,
        steps: &Vec<Step>,
        cuts: &Vec<usize>,
        scopes: &Vec<Vec<(TempId, Option<Type>)>>,
        j: usize,
        tail: IRNode,
    ) -> (r: Option<FunctionID>)
        requires
            j + 1 < cuts.len(),
            forall|k: int|
                0 <= k < cuts@.len() - 1 ==> #[trigger] ends_within(
                    place_views(cuts@),
                    k,
                    steps@.len(),
                ),
            steps@.len() < scopes@.len(),
        ensures
            (r, final(self)@) == chain_made(
                old(self)@,
                w@,
                Step::views(steps@),
                place_views(cuts@),
                scope_views(scopes@),
                j as nat,
                tail@,
            ),
        decreases j,
    {
        let ghost cv = place_views(cuts@);
        let ghost sv = scope_views(scopes@);
        assert(ends_within(cv, j as int, steps@.len()));
        assert(cv[j as int] == cuts@[j as int]);
        assert(cv[j + 1] == cuts@[j + 1]);
        let from = cuts[j];
        let to = cuts[j + 1];
        let body = rebuild(steps, from, to, tail);
        assert(sv[from as int] == known_views(scopes@[from as int]@));
        let id = self.create_segment(w, &body, &scopes[from]);
        if j == 0 {
            return id;
        }
        let rest = match id {
            Some(f) => seg_call(&self.program, f),
            None => body,
        };
        self.make_chain(w, steps, cuts, scopes, j - 1, rest)
    }
}

} // verus!
