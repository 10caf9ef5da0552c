//! What the splitting of companions keeps: how bundles are numbered, which companions
//! get one, and that everything else stays as it is.

use crate::bundles::{Bundle, Claim, Obligation, Proof};
use crate::cut_types::Known;
use crate::cutting::{
    lemma_hoisted, lemma_leads_on, lemma_leaf, lemma_no_fewer, lemma_opaque, lemma_segmented,
    lemma_stays, lemma_walk_on,
};
use crate::decompose_aborts::Stuck;
use crate::ir::{BinOp, Node};
use crate::program::{Func, Prog};
use crate::segments::{St, Whole};
use crate::substitution::Subst;
use crate::types::{FunctionID, Ty};
use vstd::prelude::*;

verus! {

/// More obligations, and more of them used.
proof fn lemma_rank_grows(q: Proof, j: nat, k: nat)
    requires
        j <= k,
    ensures
        q.rank(j) <= q.rank(k),
    decreases k,
{
    if j < k {
        lemma_rank_grows(q, j, (k - 1) as nat);
    }
}

/// Below the number of used obligations, each number is the new one of a used
/// obligation.
proof fn lemma_rank_reached(q: Proof, i: nat, k: nat) -> (j: nat)
    requires
        i < q.rank(k),
    ensures
        j < k,
        q.uses(j),
        q.rank(j) == i,
    decreases k,
{
    let before = (k - 1) as nat;
    if i < q.rank(before) {
        lemma_rank_reached(q, i, before)
    } else {
        before
    }
}

/// A proof with other numbers uses the new numbers of what it used.
proof fn lemma_renumbered_uses(q: Proof, f: spec_fn(nat) -> nat, i: nat)
    ensures
        q.renumbered(f).uses(i) <==> exists|j: nat| #[trigger] q.uses(j) && f(j) == i,
    decreases q,
{
    match q {
        Proof::Rfl => {},
        Proof::OrElse(a, b) => {
            lemma_two_renumbered(q, *a, *b, f, i);
        },
        Proof::BIte(a, b) => {
            lemma_two_renumbered(q, *a, *b, f, i);
        },
        Proof::DIte(a, b) => {
            lemma_two_renumbered(q, *a, *b, f, i);
        },
        Proof::AndBool(a, b) => {
            lemma_two_renumbered(q, *a, *b, f, i);
        },
        Proof::PIte(a, b) => {
            lemma_two_renumbered(q, *a, *b, f, i);
        },
        Proof::BIteBool(a, b) => {
            lemma_two_renumbered(q, *a, *b, f, i);
        },
        Proof::GuardFalse { ob, rest } => {
            lemma_one_renumbered(q, ob, *rest, f, i);
        },
        Proof::GuardTrue { ob, rest } => {
            lemma_one_renumbered(q, ob, *rest, f, i);
        },
        Proof::Leaf { ob } => {
            assert(q.uses(ob));
        },
        Proof::RequiresApp { req_ob, call_ob } => {
            assert(q.uses(req_ob));
            assert(q.uses(call_ob));
        },
    }
}

/// A proof of two parts, with other numbers.
proof fn lemma_two_renumbered(q: Proof, a: Proof, b: Proof, f: spec_fn(nat) -> nat, i: nat)
    requires
        decreases_to!(q => a),
        decreases_to!(q => b),
        forall|j: nat| #[trigger] q.uses(j) <==> a.uses(j) || b.uses(j),
        q.renumbered(f).uses(i) == (a.renumbered(f).uses(i) || b.renumbered(f).uses(i)),
    ensures
        q.renumbered(f).uses(i) <==> exists|j: nat| #[trigger] q.uses(j) && f(j) == i,
    decreases q, 0nat,
{
    lemma_renumbered_uses(a, f, i);
    lemma_renumbered_uses(b, f, i);
    if a.renumbered(f).uses(i) {
        let j = choose|j: nat| #[trigger] a.uses(j) && f(j) == i;
        assert(q.uses(j));
    }
    if b.renumbered(f).uses(i) {
        let j = choose|j: nat| #[trigger] b.uses(j) && f(j) == i;
        assert(q.uses(j));
    }
}

/// A proof of an obligation and a rest, with other numbers.
proof fn lemma_one_renumbered(q: Proof, ob: nat, rest: Proof, f: spec_fn(nat) -> nat, i: nat)
    requires
        decreases_to!(q => rest),
        forall|j: nat| #[trigger] q.uses(j) <==> j == ob || rest.uses(j),
        q.renumbered(f).uses(i) == (f(ob) == i || rest.renumbered(f).uses(i)),
    ensures
        q.renumbered(f).uses(i) <==> exists|j: nat| #[trigger] q.uses(j) && f(j) == i,
    decreases q, 0nat,
{
    lemma_renumbered_uses(rest, f, i);
    assert(q.uses(ob));
    if rest.renumbered(f).uses(i) {
        let j = choose|j: nat| #[trigger] rest.uses(j) && f(j) == i;
        assert(q.uses(j));
    }
}

/// The obligations that are kept are named in order, from one on.
proof fn lemma_kept_names(q: Proof, obs: Seq<Obligation>, k: nat)
    ensures
        forall|i: int|
            0 <= i < q.kept(obs, k).len() ==> (#[trigger] q.kept(obs, k)[i]).name == "ob_"@
                + crate::text::decimal((i + 1) as nat),
    decreases k,
{
    if k > 0 {
        lemma_kept_names(q, obs, (k - 1) as nat);
    }
}

/// Whether a bundle is numbered: its obligations are named in order, from one on, and
/// its proof uses each of them and no other number.
pub open spec fn is_numbered(b: Bundle) -> bool {
    &&& forall|i: int|
        0 <= i < b.obligations.len() ==> (#[trigger] b.obligations[i]).name == "ob_"@
            + crate::text::decimal((i + 1) as nat)
    &&& forall|i: nat| #[trigger] b.proof.uses(i) <==> i < b.obligations.len()
}

/// The bundle made of a proof that uses obligations that are there is numbered.
pub proof fn law_compacted_is_numbered(q: Proof, obs: Seq<Obligation>, id: FunctionID)
    requires
        crate::cutting::rests_on(Some(q), obs.len()),
    ensures
        is_numbered(
            Bundle { fn_id: id, obligations: q.kept(obs, obs.len()), proof: q.compacted() },
        ),
{
    let kept = q.kept(obs, obs.len());
    let f = |i: nat| q.rank(i);
    lemma_kept_names(q, obs, obs.len());
    q.lemma_kept_len(obs, obs.len());
    assert forall|i: nat| #[trigger] q.compacted().uses(i) <==> i < kept.len() by {
        lemma_renumbered_uses(q, f, i);
        if q.compacted().uses(i) {
            let j = choose|j: nat| #[trigger] q.uses(j) && f(j) == i;
            assert(j < obs.len());
            lemma_rank_grows(q, j + 1, obs.len());
        }
        if i < kept.len() {
            let j = lemma_rank_reached(q, i, obs.len());
            assert(q.uses(j) && f(j) == i);
        }
    }
}

/// Whether a program is another one in which at most the body of one function has
/// changed, with more functions under numbers that none had.
pub open spec fn changes_only(p: Prog, q: Prog, id: FunctionID) -> bool {
    &&& p.functions.len() <= q.functions.len()
    &&& forall|i: int|
        0 <= i < p.functions.len() ==> (#[trigger] q.functions[i]).0 == p.functions[i].0
            && q.functions[i].1 == (Func { body: q.functions[i].1.body, ..p.functions[i].1 }) && (
        p.functions[i].0 != id ==> q.functions[i] == p.functions[i])
    &&& forall|i: int|
        p.functions.len() <= i < q.functions.len() ==> (#[trigger] q.functions[i]).0
            >= crate::segments::above(p.functions)
}

/// A longer list with the same keys in front finds a key at the same position.
proof fn lemma_slot_in_front<A, B>(a: Seq<(usize, A)>, b: Seq<(usize, B)>, id: usize)
    requires
        a.len() <= b.len(),
        forall|i: int| 0 <= i < a.len() ==> (#[trigger] b[i]).0 == a[i].0,
        crate::program::slot(a, id) is Some,
    ensures
        crate::program::slot(b, id) == crate::program::slot(a, id),
{
    let i = crate::program::slot(a, id)->0;
    assert(crate::program::is_slot(a, id, i));
    assert(b[i].0 == a[i].0);
    assert forall|j: int| 0 <= j < i implies (#[trigger] b[j]).0 != id by {
        assert(b[j].0 == a[j].0);
    }
    assert(crate::program::is_slot(b, id, i));
    crate::program::lemma_slot(b, id, i);
}

/// A function keeps all but its body, and another one its body too.
pub proof fn lemma_function_kept(p: Prog, q: Prog, id: FunctionID, other: FunctionID)
    requires
        changes_only(p, q, id),
        p.has(other),
    ensures
        q.has(other),
        q.func(other) == (Func { body: q.func(other).body, ..p.func(other) }),
        other != id ==> q.func(other) == p.func(other),
{
    lemma_slot_in_front(p.functions, q.functions, other);
    let i = crate::program::slot(p.functions, other)->0;
    assert(crate::program::is_slot(p.functions, other, i));
    assert(q.functions[i].0 == p.functions[i].0);
}

/// Another body for a function, behind cutting, changes only that function.
proof fn lemma_body_changes(w: Whole, p: Prog, s: St, t: St, id: FunctionID, body: Node)
    requires
        s.p == p,
        crate::cutting::leads_to(w, s, t),
        p.has(id),
    ensures
        changes_only(p, t.p, id),
        changes_only(p, t.p.with_body_of(id, body), id),
        t.p == (Prog { functions: t.p.functions, ..p }),
        t.p.with_body_of(id, body) == (Prog {
            functions: t.p.with_body_of(id, body).functions,
            ..p
        }),
{
    reveal(crate::cutting::leads_to);
    lemma_slot_in_front(p.functions, t.p.functions, id);
    let i = crate::program::slot(p.functions, id)->0;
    assert(crate::program::is_slot(p.functions, id, i));
    assert forall|k: int| 0 <= k < p.functions.len() implies (#[trigger] t.p.functions[k]).0
        == p.functions[k].0 && t.p.functions[k].1 == (Func {
        body: t.p.functions[k].1.body,
        ..p.functions[k].1
    }) && (p.functions[k].0 != id ==> t.p.functions[k] == p.functions[k]) by {
        assert(t.p.functions[k] == p.functions[k]);
    }
    let q = t.p.with_body_of(id, body);
    assert(t.p.func(id) == p.functions[i].1);
    assert(q.functions == t.p.functions.update(i, (id, Func { body, ..p.functions[i].1 })));
    assert forall|k: int| 0 <= k < p.functions.len() implies (#[trigger] q.functions[k]).0
        == p.functions[k].0 && q.functions[k].1 == (Func {
        body: q.functions[k].1.body,
        ..p.functions[k].1
    }) && (p.functions[k].0 != id ==> q.functions[k] == p.functions[k]) by {
        assert(t.p.functions[k] == p.functions[k]);
    }
    assert forall|k: int| p.functions.len() <= k < q.functions.len() implies (
    #[trigger] q.functions[k]).0 >= crate::segments::above(p.functions) by {
        assert(q.functions[k] == t.p.functions[k]);
    }
}

/// Splitting an abort companion changes only its body, and adds at most one bundle or
/// one decomposition, of that companion. A bundle is numbered, and that of a small
/// companion has not just one obligation. The segments to be split in turn are new.
pub proof fn law_split_adds_one_bundle(p: Prog, id: FunctionID, small: bool)
    requires
        p.has(id),
    ensures
        ({
            let (q, more) = crate::decompose_aborts::split_one(p, id, small);
            &&& changes_only(p, q, id)
            &&& q.aborts_bundles == p.aborts_bundles || exists|b: Bundle|
                #![trigger p.aborts_bundles.push(b)]
                q.aborts_bundles == p.aborts_bundles.push(b) && b.fn_id == id && is_numbered(b)
                    && (small ==> b.obligations.len() != 1)
            &&& q.aborts_decompositions == p.aborts_decompositions || exists|top: FunctionID|
                #![trigger p.aborts_decompositions.push((id, top))]
                q.aborts_decompositions == p.aborts_decompositions.push((id, top))
            &&& forall|i: int|
                0 <= i < more.len() ==> #[trigger] more[i] >= crate::segments::above(p.functions)
        }),
{
    let f = p.func(id);
    let w = crate::decompose_aborts::whole_of(f, f.signature.return_type);
    let known = crate::decompose_aborts::params_known(f.signature.parameters);
    let s0 = crate::decompose_aborts::begun(p);
    let (body, s1) = crate::segments::hoisted(f.body, s0, w, known, Seq::empty());
    let (proof_, s2) = crate::decompose_aborts::bundled_on(
        body,
        body,
        s1,
        w,
        known,
        Seq::empty(),
        Seq::empty(),
        Seq::empty(),
        None,
    );
    lemma_hoisted(f.body, s0, w, known, Seq::empty());
    lemma_walk_on(
        body,
        body,
        s1,
        w,
        known,
        Seq::empty(),
        Seq::empty(),
        Seq::empty(),
        None,
    );
    lemma_leads_on(w, s0, s1, s2);
    let (top, s3) = crate::spine_cuts::segmented(body, s2, w, known);
    lemma_segmented(body, s2, w, known);
    lemma_leads_on(w, s0, s2, s3);
    lemma_body_changes(
        w,
        p,
        s0,
        s2,
        id,
        crate::decompose_aborts::stood_in(body, s2.replaced),
    );
    assert forall|i: int| 0 <= i < s2.created.len() implies #[trigger] s2.created[i]
        >= crate::segments::above(p.functions) by {
        reveal(crate::cutting::leads_to);
    }
    if let Some(q) = proof_ {
        let b = Bundle {
            fn_id: id,
            obligations: q.kept(s2.obs, s2.obs.len()),
            proof: q.compacted(),
        };
        law_compacted_is_numbered(q, s2.obs, id);
        let r = crate::decompose_aborts::with_bundle(s2, id, body, q);
        assert(r.aborts_bundles == p.aborts_bundles.push(b));
    }
    let seg = match top {
        Some(t) => crate::segments::segment_call(s3.p, t),
        None => body,
    };
    lemma_body_changes(w, p, s0, s3, id, seg);
    if let Some(t) = top {
        let r = crate::decompose_aborts::with_segments(s3, id, t);
        assert(r.aborts_decompositions == p.aborts_decompositions.push((id, t)));
    }
}

/// Whether a program has the bundles and the decompositions of another, and more, none
/// of them of the given function.
pub open spec fn adds_none_of(p: Prog, q: Prog, id: FunctionID) -> bool {
    &&& crate::cutting::begins_with(q.aborts_bundles, p.aborts_bundles)
    &&& crate::cutting::begins_with(q.aborts_decompositions, p.aborts_decompositions)
    &&& forall|i: int|
        p.aborts_bundles.len() <= i < q.aborts_bundles.len() ==> (
        #[trigger] q.aborts_bundles[i]).fn_id != id
    &&& forall|i: int|
        p.aborts_decompositions.len() <= i < q.aborts_decompositions.len() ==> (
        #[trigger] q.aborts_decompositions[i]).0 != id
}

/// A function that is not to be split, or that does not wait for it, stays as it is.
proof fn lemma_queue_keeps(
    p: Prog,
    queue: Seq<FunctionID>,
    done: Seq<FunctionID>,
    left: nat,
    all: bool,
    id: FunctionID,
)
    requires
        p.has(id),
        !queue.contains(id) || !crate::decompose_aborts::splittable(p.func(id), id) || p.func(
            id,
        ).body is OptionNone,
    ensures
        ({
            let q = crate::decompose_aborts::queue_split(p, queue, done, left, all);
            q.has(id) && q.func(id) == p.func(id) && adds_none_of(p, q, id)
        }),
    decreases left, queue.len(),
{
    if queue.len() > 0 {
        let next = queue.last();
        let rest = queue.drop_last();
        assert(queue[queue.len() - 1] == next);
        assert(queue.contains(next));
        assert(rest.contains(id) ==> queue.contains(id)) by {
            if rest.contains(id) {
                let i = choose|i: int| 0 <= i < rest.len() && rest[i] == id;
                assert(queue[i] == id);
            }
        }
        if done.contains(next) {
            lemma_queue_keeps(p, rest, done, left, all, id);
        } else if left == 0 {
        } else if !crate::decompose_aborts::to_split(p, next, all) {
            lemma_queue_keeps(p, rest, done.push(next), (left - 1) as nat, all, id);
        } else {
            assert(next != id);
            let small = crate::sizes::text_len(p.func(next).body)
                < crate::decompose_aborts::MIN_TOTAL;
            let (q, more) = crate::decompose_aborts::split_one(p, next, small);
            law_split_adds_one_bundle(p, next, small);
            lemma_function_kept(p, q, next, id);
            assert(adds_none_of(p, q, id));
            assert(!more.contains(id)) by {
                let k = crate::program::slot(p.functions, id)->0;
                assert(crate::program::is_slot(p.functions, id, k));
                crate::segments::lemma_above(p.functions, k);
                if more.contains(id) {
                    let i = choose|i: int| 0 <= i < more.len() && more[i] == id;
                    assert(more[i] >= crate::segments::above(p.functions));
                }
            }
            assert((rest + more).contains(id) ==> queue.contains(id)) by {
                if (rest + more).contains(id) {
                    let i = choose|i: int|
                        0 <= i < (rest + more).len() && (rest + more)[i] == id;
                    if i < rest.len() {
                        assert(rest[i] == id);
                        assert(rest.contains(id));
                    } else {
                        assert(more[i - rest.len()] == id);
                        assert(more.contains(id));
                    }
                }
            }
            lemma_queue_keeps(q, rest + more, done.push(next), (left - 1) as nat, all, id);
            let r = crate::decompose_aborts::queue_split(
                q,
                rest + more,
                done.push(next),
                (left - 1) as nat,
                all,
            );
            lemma_adds_on(p, q, r, id);
        }
    }
}

/// Adding on adds.
proof fn lemma_adds_on(p: Prog, q: Prog, r: Prog, id: FunctionID)
    requires
        adds_none_of(p, q, id),
        adds_none_of(q, r, id),
    ensures
        adds_none_of(p, r, id),
{
    assert forall|i: int| 0 <= i < p.aborts_bundles.len() implies #[trigger] r.aborts_bundles[i]
        == p.aborts_bundles[i] by {
        assert(q.aborts_bundles[i] == p.aborts_bundles[i]);
    }
    assert forall|i: int| p.aborts_bundles.len() <= i < r.aborts_bundles.len() implies (
    #[trigger] r.aborts_bundles[i]).fn_id != id by {
        if i < q.aborts_bundles.len() {
            assert(r.aborts_bundles[i] == q.aborts_bundles[i]);
        }
    }
    assert forall|i: int|
        0 <= i < p.aborts_decompositions.len() implies #[trigger] r.aborts_decompositions[i]
        == p.aborts_decompositions[i] by {
        assert(q.aborts_decompositions[i] == p.aborts_decompositions[i]);
    }
    assert forall|i: int|
        p.aborts_decompositions.len() <= i < r.aborts_decompositions.len() implies (
    #[trigger] r.aborts_decompositions[i]).0 != id by {
        if i < q.aborts_decompositions.len() {
            assert(r.aborts_decompositions[i] == q.aborts_decompositions[i]);
        }
    }
}

/// The functions whose names end in a text are among the functions.
proof fn lemma_named_like(fs: Seq<(FunctionID, Func)>, end: Seq<char>, id: FunctionID)
    requires
        crate::decompose_aborts::named_like(fs, end).contains(id),
    ensures
        exists|i: int|
            0 <= i < fs.len() && (#[trigger] fs[i]).0 == id && crate::text::ends(
                fs[i].1.name,
                end,
            ),
    decreases fs.len(),
{
    if fs.len() > 0 {
        let before = crate::decompose_aborts::named_like(fs.drop_last(), end);
        let all = crate::decompose_aborts::named_like(fs, end);
        let k = choose|k: int| 0 <= k < all.len() && all[k] == id;
        if k < before.len() {
            assert(before[k] == id);
            assert(before.contains(id));
            lemma_named_like(fs.drop_last(), end, id);
            let i = choose|i: int|
                0 <= i < fs.drop_last().len() && (#[trigger] fs.drop_last()[i]).0 == id
                    && crate::text::ends(fs.drop_last()[i].1.name, end);
            assert(fs[i] == fs.drop_last()[i]);
        } else {
            assert(fs[fs.len() - 1] == fs.last());
        }
    }
}

/// A function stays as it is, without a bundle or a decomposition of its own, where it
/// is not named as an abort companion, where it cannot be split, and where it never
/// aborts.
pub proof fn law_other_functions_stay(p: Prog, id: FunctionID)
    requires
        p.has(id),
        (forall|i: int|
            0 <= i < p.functions.len() && (#[trigger] p.functions[i]).0 == id
                ==> !crate::text::ends(p.functions[i].1.name, ".aborts"@))
            || !crate::decompose_aborts::splittable(p.func(id), id) || p.func(id).body
            is OptionNone,
    ensures
        ({
            let q = crate::decompose_aborts::aborts_split(p);
            q.has(id) && q.func(id) == p.func(id) && adds_none_of(p, q, id)
        }),
{
    let queue = crate::decompose_aborts::named_like(p.functions, ".aborts"@);
    if queue.contains(id) {
        lemma_named_like(p.functions, ".aborts"@, id);
    }
    lemma_queue_keeps(
        p,
        queue,
        Seq::empty(),
        500,
        crate::decompose_aborts::has_option(p.decls.module_options, "contract_aborts"@),
        id,
    );
}

/// The number above functions depends on their numbers alone, and more functions have no
/// smaller one.
proof fn lemma_above_front(a: Seq<(usize, Func)>, b: Seq<(usize, Func)>)
    requires
        a.len() <= b.len(),
        forall|i: int| 0 <= i < a.len() ==> (#[trigger] b[i]).0 == a[i].0,
    ensures
        crate::segments::above(a) <= crate::segments::above(b),
        a.len() == b.len() ==> crate::segments::above(a) == crate::segments::above(b),
    decreases b.len(),
{
    if b.len() > 0 {
        let y = b.drop_last();
        if a.len() < b.len() {
            assert forall|i: int| 0 <= i < a.len() implies (#[trigger] y[i]).0 == a[i].0 by {
                assert(y[i] == b[i]);
            }
            lemma_above_front(a, y);
        } else {
            let x = a.drop_last();
            assert forall|i: int| 0 <= i < x.len() implies (#[trigger] y[i]).0 == x[i].0 by {
                assert(y[i] == b[i] && x[i] == a[i]);
            }
            lemma_above_front(x, y);
            assert(b[b.len() - 1].0 == a[a.len() - 1].0);
        }
    }
}

/// Whether a program is another one with companions of a list, and their segments, split:
/// the functions that were there keep all but their bodies, and others have new numbers;
/// the bundles that were there stay, and each added one is numbered, belongs to a function
/// of the list or to a new one, and to none that is left out or has another added bundle.
pub open spec fn splits_once(
    p: Prog,
    q: Prog,
    listed: Seq<FunctionID>,
    left_out: Seq<FunctionID>,
) -> bool {
    &&& keeps_signatures(p, q)
    &&& forall|i: int|
        p.functions.len() <= i < q.functions.len() ==> (#[trigger] q.functions[i]).0
            >= crate::segments::above(p.functions)
    &&& crate::cutting::begins_with(q.aborts_bundles, p.aborts_bundles)
    &&& forall|i: int|
        p.aborts_bundles.len() <= i < q.aborts_bundles.len() ==> is_numbered(
            #[trigger] q.aborts_bundles[i],
        ) && !left_out.contains(q.aborts_bundles[i].fn_id) && (listed.contains(
            q.aborts_bundles[i].fn_id,
        ) || q.aborts_bundles[i].fn_id >= crate::segments::above(p.functions))
    &&& forall|i: int, j: int|
        p.aborts_bundles.len() <= i < j < q.aborts_bundles.len() ==> (
        #[trigger] q.aborts_bundles[i]).fn_id != (#[trigger] q.aborts_bundles[j]).fn_id
}

/// Splitting one companion and then others.
proof fn lemma_splits_on(
    p: Prog,
    id: FunctionID,
    small: bool,
    r: Prog,
    rest: Seq<FunctionID>,
    done: Seq<FunctionID>,
)
    requires
        p.has(id),
        !done.contains(id),
        ({
            let (q, more) = crate::decompose_aborts::split_one(p, id, small);
            splits_once(q, r, rest + more, done.push(id))
        }),
    ensures
        splits_once(p, r, rest.push(id), done),
{
    let (q, more) = crate::decompose_aborts::split_one(p, id, small);
    let queue = rest.push(id);
    law_split_adds_one_bundle(p, id, small);
    lemma_above_front(p.functions, q.functions);
    let (a, b, c) = (p.aborts_bundles, q.aborts_bundles, r.aborts_bundles);
    assert(queue[rest.len() as int] == id);
    assert(done.push(id)[done.len() as int] == id);
    assert forall|x: FunctionID| done.contains(x) implies #[trigger] done.push(id).contains(x) by {
        let k = choose|k: int| 0 <= k < done.len() && done[k] == x;
        assert(done.push(id)[k] == x);
    }
    assert forall|i: int| 0 <= i < p.functions.len() implies (#[trigger] r.functions[i]).0
        == p.functions[i].0 && r.functions[i].1 == (Func {
        body: r.functions[i].1.body,
        ..p.functions[i].1
    }) by {
        assert(q.functions[i].0 == p.functions[i].0);
    }
    assert forall|i: int| p.functions.len() <= i < r.functions.len() implies (
    #[trigger] r.functions[i]).0 >= crate::segments::above(p.functions) by {
        if i < q.functions.len() {
            assert(r.functions[i].0 == q.functions[i].0);
        }
    }
    assert forall|i: int| 0 <= i < a.len() implies #[trigger] c[i] == a[i] by {
        assert(b[i] == a[i]);
        assert(c[i] == b[i]);
    }
    assert forall|i: int| a.len() <= i < c.len() implies is_numbered(#[trigger] c[i])
        && !done.contains(c[i].fn_id) && (queue.contains(c[i].fn_id) || c[i].fn_id
        >= crate::segments::above(p.functions)) by {
        if i < b.len() {
            assert(c[i] == b[i]);
        } else if (rest + more).contains(c[i].fn_id) {
            let x = c[i].fn_id;
            let k = choose|k: int| 0 <= k < (rest + more).len() && (rest + more)[k] == x;
            if k < rest.len() {
                assert(queue[k] == x);
            } else {
                assert(more[k - rest.len()] == x);
            }
        }
    }
    assert forall|i: int, j: int| a.len() <= i < j < c.len() implies (#[trigger] c[i]).fn_id != (
    #[trigger] c[j]).fn_id by {
        if i < b.len() {
            assert(c[i] == b[i]);
            assert(c[i].fn_id == id);
            assert(j >= b.len());
        }
    }
}

/// Splitting the companions that wait.
proof fn lemma_queue_splits_once(
    p: Prog,
    queue: Seq<FunctionID>,
    done: Seq<FunctionID>,
    left: nat,
    all: bool,
)
    ensures
        splits_once(
            p,
            crate::decompose_aborts::queue_split(p, queue, done, left, all),
            queue,
            done,
        ),
    decreases left, queue.len(),
{
    if queue.len() > 0 {
        let next = queue.last();
        let rest = queue.drop_last();
        assert(rest.push(next) =~= queue);
        assert forall|x: FunctionID| rest.contains(x) implies #[trigger] queue.contains(x) by {
            let k = choose|k: int| 0 <= k < rest.len() && rest[k] == x;
            assert(queue[k] == x);
        }
        let later = done.push(next);
        assert forall|x: FunctionID| done.contains(x) implies #[trigger] later.contains(x) by {
            let k = choose|k: int| 0 <= k < done.len() && done[k] == x;
            assert(later[k] == x);
        }
        if done.contains(next) {
            lemma_queue_splits_once(p, rest, done, left, all);
        } else if left == 0 {
        } else if !crate::decompose_aborts::to_split(p, next, all) {
            lemma_queue_splits_once(p, rest, later, (left - 1) as nat, all);
        } else {
            let small = crate::sizes::text_len(p.func(next).body)
                < crate::decompose_aborts::MIN_TOTAL;
            let (q, more) = crate::decompose_aborts::split_one(p, next, small);
            lemma_queue_splits_once(q, rest + more, later, (left - 1) as nat, all);
            lemma_splits_on(
                p,
                next,
                small,
                crate::decompose_aborts::queue_split(q, rest + more, later, (left - 1) as nat, all),
                rest,
                done,
            );
        }
    }
}

/// Splitting the abort companions of a program leaves of its functions all but their
/// bodies, and its bundles. Each added bundle is numbered; no two are of the same function;
/// and each belongs to a function named as an abort companion, or to a segment that is new.
pub proof fn law_abort_bundles_are_of_companions(p: Prog)
    ensures
        ({
            let q = crate::decompose_aborts::aborts_split(p);
            &&& splits_once(
                p,
                q,
                crate::decompose_aborts::named_like(p.functions, ".aborts"@),
                Seq::empty(),
            )
            &&& forall|i: int|
                p.aborts_bundles.len() <= i < q.aborts_bundles.len() ==> is_abort_companion(
                    p,
                    (#[trigger] q.aborts_bundles[i]).fn_id,
                ) || q.aborts_bundles[i].fn_id >= crate::segments::above(p.functions)
        }),
{
    let listed = crate::decompose_aborts::named_like(p.functions, ".aborts"@);
    let all = crate::decompose_aborts::has_option(p.decls.module_options, "contract_aborts"@);
    let q = crate::decompose_aborts::aborts_split(p);
    lemma_queue_splits_once(p, listed, Seq::empty(), 500, all);
    assert forall|i: int|
        p.aborts_bundles.len() <= i < q.aborts_bundles.len() implies is_abort_companion(
        p,
        (#[trigger] q.aborts_bundles[i]).fn_id,
    ) || q.aborts_bundles[i].fn_id >= crate::segments::above(p.functions) by {
        if listed.contains(q.aborts_bundles[i].fn_id) {
            lemma_named_like(p.functions, ".aborts"@, q.aborts_bundles[i].fn_id);
        }
    }
}

/// Whether a function of the program is named as an abort companion.
pub open spec fn is_abort_companion(p: Prog, id: FunctionID) -> bool {
    exists|i: int|
        0 <= i < p.functions.len() && (#[trigger] p.functions[i]).0 == id && crate::text::ends(
            p.functions[i].1.name,
            ".aborts"@,
        )
}

/// The walk over a companion that states what is ensured only adds: the obligations
/// that were there stay in place, each new one mentions parameters and proof parameters
/// of the companion only, and the proof uses obligations that are then there.
pub proof fn law_ensures_walk_only_adds(
    n: Node,
    s: St,
    w: Whole,
    known: Known,
    subst: Subst,
    path: Seq<(Node, bool)>,
    depth: nat,
)
    ensures
        ({
            let (q, t) = crate::decompose_ensures::shown(n, s, w, known, subst, path, depth);
            crate::cutting::leads_to(w, s, t) && crate::cutting::rests_on(q, t.obs.len())
        }),
    decreases 4 * depth + 3, n, 2nat,
{
    if n is Let {
        lemma_shown_on(n, s, w, known, subst, path, None, depth);
    } else {
        lemma_shown_end(n, s, w, known, subst, path, depth);
    }
}

/// The walk over what is left of a proposition only adds.
pub proof fn lemma_shown_on(
    n: Node,
    s: St,
    w: Whole,
    known: Known,
    subst: Subst,
    path: Seq<(Node, bool)>,
    stuck: Option<Stuck>,
    depth: nat,
)
    ensures
        ({
            let (q, t) = crate::decompose_ensures::shown_on(
                n,
                s,
                w,
                known,
                subst,
                path,
                stuck,
                depth,
            );
            crate::cutting::leads_to(w, s, t) && crate::cutting::rests_on(q, t.obs.len())
        }),
    decreases 4 * depth + 3, n, 1nat,
{
    match n {
        Node::Let { pattern, value, body } => {
            let (subst1, bad) = crate::obligations::bound_values(
                n,
                false,
                s.p.world_functions,
                pattern,
                *value,
                subst,
            );
            let stuck1 = if stuck is None && bad {
                Some(Stuck { tail: n, known, subst, behind: 0 })
            } else {
                stuck
            };
            let known1 = crate::cut_types::behind(
                known,
                pattern,
                crate::cut_types::told_type(*value, known, s.p),
            );
            lemma_shown_on(*body, s, w, known1, subst1, path, stuck1, depth);
        },
        _ => {
            let (proof_, s1) = crate::decompose_ensures::shown_end(
                n,
                s,
                w,
                known,
                subst,
                path,
                depth,
            );
            lemma_shown_end(n, s, w, known, subst, path, depth);
            match stuck {
                Some(k) => {
                    lemma_opaque(s1, w, k.tail, k.known, k.subst, path, true);
                    lemma_leads_on(
                        w,
                        s,
                        s1,
                        crate::obligations::opaque_made(
                            s1,
                            w,
                            k.tail,
                            k.known,
                            k.subst,
                            path,
                            true,
                        ).1,
                    );
                },
                None => {
                    lemma_opaque(s1, w, n, known, subst, path, true);
                    lemma_leads_on(
                        w,
                        s,
                        s1,
                        crate::obligations::opaque_made(s1, w, n, known, subst, path, true).1,
                    );
                },
            }
        },
    }
}

/// The walk over two propositions only adds.
pub proof fn lemma_both_shown(
    a: Node,
    b: Node,
    s: St,
    w: Whole,
    known: Known,
    subst: Subst,
    on_a: Seq<(Node, bool)>,
    on_b: Seq<(Node, bool)>,
    depth: nat,
)
    ensures
        ({
            let (q, t) = crate::decompose_ensures::both_shown(
                a,
                b,
                s,
                w,
                known,
                subst,
                on_a,
                on_b,
                depth,
            );
            crate::cutting::leads_to(w, s, t) && (q matches Some((x, y)) ==> crate::cutting::rests_on(
                Some(x),
                t.obs.len(),
            ) && crate::cutting::rests_on(Some(y), t.obs.len()))
        }),
    decreases 4 * depth + 4, Node::OptionNone, 0nat,
{
    let (x, s1) = crate::decompose_ensures::shown(a, s, w, known, subst, on_a, depth);
    law_ensures_walk_only_adds(a, s, w, known, subst, on_a, depth);
    let (y, s2) = crate::decompose_ensures::shown(b, s1, w, known, subst, on_b, depth);
    law_ensures_walk_only_adds(b, s1, w, known, subst, on_b, depth);
    lemma_leads_on(w, s, s1, s2);
    lemma_no_fewer(w, s1, s2);
}

/// Two parts of a proof that use obligations that are there.
proof fn lemma_two_rest(q: Proof, a: Proof, b: Proof, count: nat)
    requires
        crate::cutting::rests_on(Some(a), count),
        crate::cutting::rests_on(Some(b), count),
        forall|i: nat| #[trigger] q.uses(i) ==> a.uses(i) || b.uses(i),
    ensures
        crate::cutting::rests_on(Some(q), count),
{
    assert forall|i: nat| #[trigger] q.uses(i) implies i < count by {
        assert(a.uses(i) || b.uses(i));
    }
}

/// The walk over a boolean expression only adds.
pub proof fn lemma_truth_shown(
    e: Node,
    s: St,
    w: Whole,
    known: Known,
    subst: Subst,
    path: Seq<(Node, bool)>,
    depth: nat,
)
    ensures
        ({
            let (q, t) = crate::decompose_ensures::truth_shown(
                e,
                s,
                w,
                known,
                subst,
                path,
                depth,
            );
            crate::cutting::leads_to(w, s, t) && crate::cutting::rests_on(q, t.obs.len())
        }),
    decreases 4 * depth + 2, Node::OptionNone, 0nat,
{
    lemma_stays(w, s);
    lemma_leaf(s, w, path, Claim::PropHolds(Node::ToProp(Box::new(e))));
    match e {
        Node::BinOp { op: BinOp::And, lhs, rhs } if depth > 0 => {
            let (l, r) = (Node::ToProp(lhs), Node::ToProp(rhs));
            lemma_both_shown(l, r, s, w, known, subst, path, path, (depth - 1) as nat);
            let (parts, t) = crate::decompose_ensures::both_shown(
                l,
                r,
                s,
                w,
                known,
                subst,
                path,
                path,
                (depth - 1) as nat,
            );
            if let Some((a, b)) = parts {
                lemma_two_rest(Proof::AndBool(Box::new(a), Box::new(b)), a, b, t.obs.len());
            }
        },
        Node::If { cond, then_branch, else_branch } if depth > 0 => {
            let (l, r) = (Node::ToProp(then_branch), Node::ToProp(else_branch));
            let (yes, no) = (path.push((*cond, true)), path.push((*cond, false)));
            lemma_both_shown(l, r, s, w, known, subst, yes, no, (depth - 1) as nat);
            let (parts, t) = crate::decompose_ensures::both_shown(
                l,
                r,
                s,
                w,
                known,
                subst,
                yes,
                no,
                (depth - 1) as nat,
            );
            if let Some((a, b)) = parts {
                lemma_two_rest(Proof::BIteBool(Box::new(a), Box::new(b)), a, b, t.obs.len());
            }
        },
        _ => {},
    }
}

/// The walk over a proposition that is no binding only adds.
pub proof fn lemma_shown_end(
    n: Node,
    s: St,
    w: Whole,
    known: Known,
    subst: Subst,
    path: Seq<(Node, bool)>,
    depth: nat,
)
    ensures
        ({
            let (q, t) = crate::decompose_ensures::shown_end(
                n,
                s,
                w,
                known,
                subst,
                path,
                depth,
            );
            crate::cutting::leads_to(w, s, t) && crate::cutting::rests_on(q, t.obs.len())
        }),
    decreases 4 * depth + 3, n, 0nat,
{
    lemma_opaque(s, w, n, known, subst, path, true);
    match n {
        Node::ToProp(inner) => {
            if let Some(e) = crate::substitution::substituted(*inner, subst) {
                lemma_truth_shown(
                    crate::decompose_ensures::unwrapped(e, Seq::empty()),
                    s,
                    w,
                    known,
                    subst,
                    path,
                    depth,
                );
            }
        },
        Node::If { cond, then_branch, else_branch } => {
            if let Some(c) = crate::substitution::substituted(*cond, subst) {
                let (yes, no) = (path.push((c, true)), path.push((c, false)));
                let (t, s1) = crate::decompose_ensures::shown(
                    *then_branch,
                    s,
                    w,
                    known,
                    subst,
                    yes,
                    depth,
                );
                law_ensures_walk_only_adds(*then_branch, s, w, known, subst, yes, depth);
                let (e, s2) = crate::decompose_ensures::shown(
                    *else_branch,
                    s1,
                    w,
                    known,
                    subst,
                    no,
                    depth,
                );
                law_ensures_walk_only_adds(*else_branch, s1, w, known, subst, no, depth);
                lemma_leads_on(w, s, s1, s2);
                lemma_no_fewer(w, s1, s2);
                if t is Some && e is Some {
                    lemma_two_rest(
                        Proof::PIte(Box::new(t->0), Box::new(e->0)),
                        t->0,
                        e->0,
                        s2.obs.len(),
                    );
                }
            }
        },
        _ => {
            if let Some(e) = crate::substitution::substituted(n, subst) {
                lemma_leaf(s, w, path, Claim::PropHolds(e));
            }
        },
    }
}

/// Splitting a companion that states what is ensured changes only its body, and adds at
/// most one bundle: of that companion, numbered, and of at least two obligations.
pub proof fn law_ensures_split_adds_one_bundle(p: Prog, id: FunctionID)
    requires
        p.has(id),
    ensures
        ({
            let q = crate::decompose_ensures::ensures_split_one(p, id);
            &&& changes_only(p, q, id)
            &&& q.ensures_bundles == p.ensures_bundles || exists|b: Bundle|
                #![trigger p.ensures_bundles.push(b)]
                q.ensures_bundles == p.ensures_bundles.push(b) && b.fn_id == id && is_numbered(b)
                    && b.obligations.len() >= 2
        }),
{
    let f = p.func(id);
    let w = crate::decompose_aborts::whole_of(f, Ty::Prop);
    let known = crate::decompose_aborts::params_known(f.signature.parameters);
    let s0 = crate::decompose_aborts::begun(p);
    let depth = crate::coalesce::NESTING as nat;
    let (proof_, s) = crate::decompose_ensures::shown_on(
        f.body,
        s0,
        w,
        known,
        Seq::empty(),
        Seq::empty(),
        None,
        depth,
    );
    lemma_shown_on(f.body, s0, w, known, Seq::empty(), Seq::empty(), None, depth);
    lemma_body_changes(
        w,
        p,
        s0,
        s,
        id,
        crate::decompose_aborts::stood_in(f.body, s.replaced),
    );
    if let Some(q) = proof_ {
        let b = Bundle {
            fn_id: id,
            obligations: q.kept(s.obs, s.obs.len()),
            proof: q.compacted(),
        };
        law_compacted_is_numbered(q, s.obs, id);
        let r = crate::decompose_ensures::with_ensures_bundle(s, id, f.body, q);
        assert(r.ensures_bundles == p.ensures_bundles.push(b));
    }
}

/// Whether a function of the program that is named as a companion which states what is
/// ensured has the number.
pub open spec fn is_ensures_companion(p: Prog, id: FunctionID) -> bool {
    exists|i: int|
        0 <= i < p.functions.len() && (#[trigger] p.functions[i]).0 == id
            && crate::decompose_ensures::ensures_name(p.functions[i].1.name)
}

/// Whether a bundle has at least two obligations, is numbered, and belongs to a
/// companion, with the name of one, that states a proposition.
pub open spec fn is_ensures_bundle(p: Prog, b: Bundle) -> bool {
    &&& b.obligations.len() >= 2
    &&& is_numbered(b)
    &&& is_ensures_companion(p, b.fn_id)
    &&& p.has(b.fn_id)
    &&& p.func(b.fn_id).signature.return_type == Ty::Prop
}

/// Whether a program has the bundles of another and more, each such a bundle.
pub open spec fn adds_ensures_bundles(p: Prog, q: Prog) -> bool {
    &&& crate::cutting::begins_with(q.ensures_bundles, p.ensures_bundles)
    &&& forall|i: int|
        p.ensures_bundles.len() <= i < q.ensures_bundles.len() ==> is_ensures_bundle(
            p,
            #[trigger] q.ensures_bundles[i],
        )
}

/// The companions that state what is ensured are named so.
proof fn lemma_ensures_named(fs: Seq<(FunctionID, Func)>, k: int)
    requires
        0 <= k < crate::decompose_ensures::ensures_named(fs).len(),
    ensures
        exists|i: int|
            0 <= i < fs.len() && (#[trigger] fs[i]).0
                == crate::decompose_ensures::ensures_named(fs)[k]
                && crate::decompose_ensures::ensures_name(fs[i].1.name),
    decreases fs.len(),
{
    if fs.len() > 0 {
        let before = crate::decompose_ensures::ensures_named(fs.drop_last());
        if k < before.len() {
            lemma_ensures_named(fs.drop_last(), k);
            let i = choose|i: int|
                0 <= i < fs.drop_last().len() && (#[trigger] fs.drop_last()[i]).0 == before[k]
                    && crate::decompose_ensures::ensures_name(fs.drop_last()[i].1.name);
            assert(fs[i] == fs.drop_last()[i]);
        } else {
            assert(fs[fs.len() - 1] == fs.last());
        }
    }
}

/// Whether the functions of a program are still there, with other bodies at most.
pub open spec fn keeps_signatures(p: Prog, q: Prog) -> bool {
    &&& p.functions.len() <= q.functions.len()
    &&& forall|i: int|
        0 <= i < p.functions.len() ==> (#[trigger] q.functions[i]).0 == p.functions[i].0
            && q.functions[i].1 == (Func { body: q.functions[i].1.body, ..p.functions[i].1 })
}

/// One more companion that is split adds at most one more bundle.
proof fn lemma_one_more_split(p: Prog, q: Prog, id: FunctionID)
    requires
        is_ensures_companion(p, id),
        adds_ensures_bundles(p, q),
        keeps_signatures(p, q),
        crate::decompose_ensures::ensures_to_split(q, id),
    ensures
        adds_ensures_bundles(p, crate::decompose_ensures::ensures_split_one(q, id)),
        keeps_signatures(p, crate::decompose_ensures::ensures_split_one(q, id)),
{
    law_ensures_split_adds_one_bundle(q, id);
    lemma_there_before(p, q, id);
    let r = crate::decompose_ensures::ensures_split_one(q, id);
    assert forall|i: int| 0 <= i < p.functions.len() implies (#[trigger] r.functions[i]).0
        == p.functions[i].0 && r.functions[i].1 == (Func {
        body: r.functions[i].1.body,
        ..p.functions[i].1
    }) by {
        assert(q.functions[i].0 == p.functions[i].0);
        assert(r.functions[i].0 == q.functions[i].0);
    }
    if r.ensures_bundles != q.ensures_bundles {
        let b = choose|b: Bundle|
            #![trigger q.ensures_bundles.push(b)]
            r.ensures_bundles == q.ensures_bundles.push(b) && b.fn_id == id && is_numbered(b)
                && b.obligations.len() >= 2;
        assert(is_ensures_bundle(p, b));
        assert forall|i: int|
            p.ensures_bundles.len() <= i < r.ensures_bundles.len() implies is_ensures_bundle(
            p,
            #[trigger] r.ensures_bundles[i],
        ) by {
            if i < q.ensures_bundles.len() {
                assert(r.ensures_bundles[i] == q.ensures_bundles[i]);
            }
        }
        assert forall|i: int|
            0 <= i < p.ensures_bundles.len() implies #[trigger] r.ensures_bundles[i]
            == p.ensures_bundles[i] by {
            assert(q.ensures_bundles[i] == p.ensures_bundles[i]);
        }
    }
}

/// Splitting the companions of a list adds bundles of those companions alone, and
/// leaves the signatures of the functions as they are.
proof fn lemma_ensures_split_all(p: Prog, ids: Seq<FunctionID>)
    requires
        forall|k: int| 0 <= k < ids.len() ==> is_ensures_companion(p, #[trigger] ids[k]),
    ensures
        adds_ensures_bundles(p, crate::decompose_ensures::ensures_split_all(p, ids)),
        keeps_signatures(p, crate::decompose_ensures::ensures_split_all(p, ids)),
    decreases ids.len(),
{
    if ids.len() > 0 {
        let id = ids.last();
        let before = ids.drop_last();
        let q = crate::decompose_ensures::ensures_split_all(p, before);
        assert forall|k: int| 0 <= k < before.len() implies is_ensures_companion(
            p,
            #[trigger] before[k],
        ) by {
            assert(before[k] == ids[k]);
        }
        lemma_ensures_split_all(p, before);
        assert(is_ensures_companion(p, ids[ids.len() - 1]));
        if crate::decompose_ensures::ensures_to_split(q, id) {
            lemma_one_more_split(p, q, id);
        }
    }
}

/// A companion's function was there before, with the same signature.
proof fn lemma_there_before(p: Prog, q: Prog, id: FunctionID)
    requires
        is_ensures_companion(p, id),
        keeps_signatures(p, q),
    ensures
        p.has(id),
        q.has(id),
        q.func(id) == (Func { body: q.func(id).body, ..p.func(id) }),
{
    let k = choose|i: int|
        0 <= i < p.functions.len() && (#[trigger] p.functions[i]).0 == id
            && crate::decompose_ensures::ensures_name(p.functions[i].1.name);
    crate::program::lemma_slot_exists(p.functions, id, k);
    lemma_slot_in_front(p.functions, q.functions, id);
    let i = crate::program::slot(p.functions, id)->0;
    assert(crate::program::is_slot(p.functions, id, i));
    assert(q.functions[i].0 == p.functions[i].0);
}

/// Without the option nothing changes; with it each bundle that is added has at least
/// two obligations, and belongs to a function named as a companion which states what is
/// ensured, whose result is a proposition.
pub proof fn law_ensures_bundles_are_of_companions(p: Prog)
    ensures
        !crate::decompose_aborts::has_option(p.decls.module_options, "ensures_bundles"@)
            ==> crate::decompose_ensures::ensures_split(p) == p,
        adds_ensures_bundles(p, crate::decompose_ensures::ensures_split(p)),
{
    let ids = crate::decompose_ensures::ensures_named(p.functions);
    assert forall|k: int| 0 <= k < ids.len() implies is_ensures_companion(
        p,
        #[trigger] ids[k],
    ) by {
        lemma_ensures_named(p.functions, k);
    }
    lemma_ensures_split_all(p, ids);
}

} // verus!
