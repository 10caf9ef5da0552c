//! How long an expression is: the length of the text that it is shown as, with every
//! number in decimal digits.

use crate::ir::{Const, IRNode, Lit, Node};
use crate::word::{quotient, Word};
use vstd::arithmetic::power2::*;
use vstd::prelude::*;

verus! {

/// The length of the text that an expression is shown as, with each number as the two
/// halves of its word.
pub uninterp spec fn debug_len(n: Node) -> nat;

/// The length of the text that the word of a number is shown as.
pub uninterp spec fn word_len(v: nat) -> nat;

/// `format!` with `{:?}` on an expression: the length of the text is that of the
/// expression that is shown, and the texts of the words in it are parts of that text.
#[verifier::external_body]
fn debug_size(node: &IRNode) -> (r: usize)
    ensures
        r == debug_len(node@),
        texts(node@, word_texts()) <= r,
{
    format!("{:?}", node).len()
}

/// `format!` with `{:?}` on a word: the length of the text is that of the number.
#[verifier::external_body]
fn word_size(w: &Word) -> (r: usize)
    ensures
        r == word_len(w@),
{
    format!("{:?}", w).len()
}

/// The lengths of the texts that words are shown as.
pub open spec fn word_texts() -> spec_fn(nat) -> nat {
    |v: nat| word_len(v)
}

/// The lengths of numbers in decimal digits.
pub open spec fn digit_texts() -> spec_fn(nat) -> nat {
    |v: nat| crate::text::decimal(v).len()
}

/// The lengths of the numbers of a literal, added up.
pub open spec fn lit_texts(l: Lit, len: spec_fn(nat) -> nat) -> nat
    decreases l, 0nat,
{
    match l {
        Lit::Bool(_) => 0,
        Lit::UInt { value, .. } => len(value),
        Lit::Address(a) => len(a),
        Lit::Vector { elems, .. } => lits_texts(elems, len, elems.len()),
    }
}

/// The lengths of the numbers of the first `k` literals, added up.
pub open spec fn lits_texts(s: Seq<Lit>, len: spec_fn(nat) -> nat, k: nat) -> nat
    decreases s, k,
{
    if k == 0 || k > s.len() {
        0
    } else {
        lits_texts(s, len, (k - 1) as nat) + lit_texts(s[k - 1], len)
    }
}

/// The lengths of the numbers of the literal that an expression is, if it is one.
pub open spec fn texts_here(len: spec_fn(nat) -> nat) -> spec_fn(Node) -> nat {
    |n: Node|
        match n {
            Node::Const(l) => lit_texts(l, len),
            _ => 0nat,
        }
}

/// The lengths of the numbers in an expression, added up.
pub open spec fn texts(n: Node, len: spec_fn(nat) -> nat) -> nat {
    n.weight(texts_here(len))
}

/// The length of the text that an expression is shown as, with each number in decimal
/// digits.
pub open spec fn text_len(n: Node) -> nat {
    (debug_len(n) - texts(n, word_texts()) + texts(n, digit_texts())) as nat
}

/// A number, or the largest that a `usize` holds where it is larger.
pub open spec fn at_most_max(v: nat) -> nat {
    if v > usize::MAX {
        usize::MAX as nat
    } else {
        v
    }
}

/// A number below `2^k` has at most `k` decimal digits.
proof fn lemma_digits(v: nat, k: nat)
    requires
        v < pow2(k),
        k > 0,
    ensures
        crate::text::decimal(v).len() <= k,
    decreases v,
{
    if v >= 10 {
        lemma2_to64();
        lemma_pow2_unfold(k);
        if k == 1 {
            assert(pow2(1) == 2);
        }
        lemma_digits(v / 10, (k - 1) as nat);
    }
}

/// The number of decimal digits of a number.
fn count_digits(w: Word) -> (r: usize)
    ensures
        r == crate::text::decimal(w@).len(),
{
    let mut left = w;
    let mut n: usize = 1;
    proof {
        crate::word::lemma_below_modulus(w);
        lemma_digits(w@, 256);
    }
    let ten = Word::small(10);
    while !left.less(&ten)
        invariant
            ten@ == 10,
            crate::text::decimal(w@).len() <= 256,
            n >= 1,
            (n - 1) + crate::text::decimal(left@).len() == crate::text::decimal(w@).len(),
        decreases left@,
    {
        left = quotient(left, ten);
        n += 1;
    }
    n
}

/// Adds the lengths of the numbers of a literal: of their words, and in digits.
fn add_lit(c: &Const, words: usize, written: usize) -> (r: (usize, usize))
    requires
        words + lit_texts(c@, word_texts()) <= usize::MAX,
    ensures
        r.0 == words + lit_texts(c@, word_texts()),
        r.1 == at_most_max(written as nat + lit_texts(c@, digit_texts())),
    decreases c,
{
    match c {
        Const::Bool(_) => (words, written),
        Const::UInt { value, .. } => (
            words + word_size(value),
            written.saturating_add(count_digits(*value)),
        ),
        Const::Address(a) => (words + word_size(a), written.saturating_add(count_digits(*a))),
        Const::Vector { elems, .. } => add_lits(elems, words, written),
    }
}

/// Adding up more literals makes no less.
proof fn lemma_lits_texts(s: Seq<Lit>, len: spec_fn(nat) -> nat, j: nat, k: nat)
    requires
        j <= k <= s.len(),
    ensures
        lits_texts(s, len, j) <= lits_texts(s, len, k),
    decreases k,
{
    if j < k {
        lemma_lits_texts(s, len, j, (k - 1) as nat);
    }
}

/// Adds the lengths of the numbers of literals.
fn add_lits(cs: &Vec<Const>, words: usize, written: usize) -> (r: (usize, usize))
    requires
        words + lits_texts(Const::views(cs@), word_texts(), cs@.len()) <= usize::MAX,
    ensures
        r.0 == words + lits_texts(Const::views(cs@), word_texts(), cs@.len()),
        r.1 == at_most_max(
            written as nat + lits_texts(Const::views(cs@), digit_texts(), cs@.len()),
        ),
    decreases cs,
{
    let ghost all = Const::views(cs@);
    let mut a = words;
    let mut b = written;
    let mut i: usize = 0;
    while i < cs.len()
        invariant
            i <= cs.len(),
            all == Const::views(cs@),
            all.len() == cs@.len(),
            words + lits_texts(all, word_texts(), cs@.len()) <= usize::MAX,
            a == words + lits_texts(all, word_texts(), i as nat),
            b == at_most_max(written as nat + lits_texts(all, digit_texts(), i as nat)),
        decreases cs.len() - i,
    {
        assert(all[i as int] == cs@[i as int]@);
        proof {
            lemma_lits_texts(all, word_texts(), (i + 1) as nat, cs@.len());
        }
        let (x, y) = add_lit(&cs[i], a, b);
        a = x;
        b = y;
        i += 1;
    }
    (a, b)
}

/// Adds the lengths of the numbers in an expression.
fn add_texts(node: &IRNode, words: usize, written: usize) -> (r: (usize, usize))
    requires
        words + texts(node@, word_texts()) <= usize::MAX,
    ensures
        r.0 == words + texts(node@, word_texts()),
        r.1 == at_most_max(written as nat + texts(node@, digit_texts())),
    decreases node@,
{
    let ghost n = node@;
    let ghost f = texts_here(word_texts());
    let ghost g = texts_here(digit_texts());
    let (mut a, mut b) = match node {
        IRNode::Const(c) => add_lit(c, words, written),
        _ => (words, written),
    };
    let ks = node.children();
    let mut i: usize = 0;
    proof {
        n.lemma_kids_decrease();
    }
    while i < ks.len()
        invariant
            i <= ks.len(),
            n == node@,
            f == texts_here(word_texts()),
            g == texts_here(digit_texts()),
            ks@.len() == n.kids().len(),
            forall|j: int| 0 <= j < ks@.len() ==> (#[trigger] ks@[j])@ == n.kids()[j],
            forall|j: int| 0 <= j < n.kids().len() ==> decreases_to!(
                n => #[trigger] n.kids()[j]
            ),
            words + n.weight(f) <= usize::MAX,
            a + n.weight_from(f, i as nat) == words + n.weight(f),
            at_most_max(b as nat + n.weight_from(g, i as nat)) == at_most_max(
                written as nat + n.weight(g),
            ),
        decreases ks.len() - i,
    {
        assert(ks@[i as int]@ == n.kids()[i as int]);
        assert(n.weight_from(f, i as nat) == n.kids()[i as int].weight(f) + n.weight_from(
            f,
            (i + 1) as nat,
        ));
        assert(n.weight_from(g, i as nat) == n.kids()[i as int].weight(g) + n.weight_from(
            g,
            (i + 1) as nat,
        ));
        let (x, y) = add_texts(ks[i], a, b);
        a = x;
        b = y;
        i += 1;
    }
    (a, b)
}

/// The length of the text of an expression, at most the largest number.
pub(crate) fn approx_size(node: &IRNode) -> (r: usize)
    ensures
        r == at_most_max(text_len(node@)),
{
    let shown = debug_size(node);
    let (words, written) = add_texts(node, 0, 0);
    (shown - words).saturating_add(written)
}

} // verus!
