//! 256-bit unsigned integers, computed by the `ethnum` crate.
//!
//! A [`Word`] holds the two halves of the integer as plain values. Its view is
//! the natural number that the halves stand for. Each arithmetic function hands
//! the halves to `ethnum::U256` and takes the halves of the result back.

use ethnum::U256;
use vstd::arithmetic::power2::*;
use vstd::prelude::*;

verus! {

/// A 256-bit unsigned integer: `hi * 2^128 + lo`.
#[derive(Clone, Copy, Debug, PartialEq, Eq, Structural)]
pub struct Word {
    pub hi: u128,
    pub lo: u128,
}

/// `2^128`, the weight of the high half.
pub open spec fn half() -> int {
    0x1_0000_0000_0000_0000_0000_0000_0000_0000int
}

/// The number of values of a [`Word`], `2^256`.
pub open spec fn modulus() -> nat {
    pow2(256)
}

/// The high half of a number below `2^256`.
pub open spec fn high(n: nat) -> u128 {
    (n as int / half()) as u128
}

/// The low half of a number.
pub open spec fn low(n: nat) -> u128 {
    (n as int % half()) as u128
}

/// The number with the given halves.
pub open spec fn join(hi: u128, lo: u128) -> nat {
    (hi as int * half() + lo as int) as nat
}

/// Bitwise and, half by half.
pub open spec fn bit_and(a: nat, b: nat) -> nat {
    join(high(a) & high(b), low(a) & low(b))
}

/// Bitwise or, half by half.
pub open spec fn bit_or(a: nat, b: nat) -> nat {
    join(high(a) | high(b), low(a) | low(b))
}

/// Bitwise exclusive or, half by half.
pub open spec fn bit_xor(a: nat, b: nat) -> nat {
    join(high(a) ^ high(b), low(a) ^ low(b))
}

/// Bitwise complement, half by half.
pub open spec fn bit_not(a: nat) -> nat {
    join(!high(a), !low(a))
}

impl Word {
    /// The number that the two halves stand for.
    pub open spec fn view(&self) -> nat {
        join(self.hi, self.lo)
    }

    /// Two words with the same number have the same halves.
    pub proof fn lemma_view_injective(a: Word, b: Word)
        ensures
            a@ == b@ <==> a == b,
    {
    }

    /// The word for a small number.
    pub fn small(n: u64) -> (r: Word)
        ensures
            r@ == n,
    {
        Word { hi: 0, lo: n as u128 }
    }

    /// Whether two words are the same number.
    pub fn same(&self, other: &Word) -> (r: bool)
        ensures
            r == (self@ == other@),
    {
        proof {
            Word::lemma_view_injective(*self, *other);
        }
        self.hi == other.hi && self.lo == other.lo
    }

    /// Whether `self` is the smaller number.
    pub fn less(&self, other: &Word) -> (r: bool)
        ensures
            r == (self@ < other@),
    {
        self.hi < other.hi || (self.hi == other.hi && self.lo < other.lo)
    }

    /// The smaller of two numbers.
    pub fn least(self, other: Word) -> (r: Word)
        ensures
            r@ == if other@ < self@ { other@ } else { self@ },
    {
        if other.less(&self) {
            other
        } else {
            self
        }
    }
}

/// `U256::wrapping_add`: addition modulo `2^256`.
#[verifier::external_body]
pub(crate) fn wrapping_add(a: Word, b: Word) -> (r: Word)
    ensures
        r@ == (a@ + b@) % modulus(),
{
    let (hi, lo) = U256::from_words(a.hi, a.lo).wrapping_add(U256::from_words(b.hi, b.lo)).into_words();
    Word { hi, lo }
}

/// `U256::wrapping_sub`: subtraction modulo `2^256`.
#[verifier::external_body]
pub(crate) fn wrapping_sub(a: Word, b: Word) -> (r: Word)
    ensures
        r@ == (a@ - b@) % modulus() as int,
{
    let (hi, lo) = U256::from_words(a.hi, a.lo).wrapping_sub(U256::from_words(b.hi, b.lo)).into_words();
    Word { hi, lo }
}

/// `U256::wrapping_mul`: multiplication modulo `2^256`.
#[verifier::external_body]
pub(crate) fn wrapping_mul(a: Word, b: Word) -> (r: Word)
    ensures
        r@ == (a@ * b@) % modulus(),
{
    let (hi, lo) = U256::from_words(a.hi, a.lo).wrapping_mul(U256::from_words(b.hi, b.lo)).into_words();
    Word { hi, lo }
}

/// `-` on `U256`: the difference, where it is not negative.
#[verifier::external_body]
pub(crate) fn minus(a: Word, b: Word) -> (r: Word)
    requires
        b@ <= a@,
    ensures
        r@ == a@ - b@,
{
    let (hi, lo) = (U256::from_words(a.hi, a.lo) - U256::from_words(b.hi, b.lo)).into_words();
    Word { hi, lo }
}

/// `/` on `U256`: the quotient by a divisor that is not zero.
#[verifier::external_body]
pub(crate) fn quotient(a: Word, b: Word) -> (r: Word)
    requires
        b@ != 0,
    ensures
        r@ == a@ / b@,
{
    let (hi, lo) = (U256::from_words(a.hi, a.lo) / U256::from_words(b.hi, b.lo)).into_words();
    Word { hi, lo }
}

/// `%` on `U256`: the remainder by a divisor that is not zero.
#[verifier::external_body]
pub(crate) fn remainder(a: Word, b: Word) -> (r: Word)
    requires
        b@ != 0,
    ensures
        r@ == a@ % b@,
{
    let (hi, lo) = (U256::from_words(a.hi, a.lo) % U256::from_words(b.hi, b.lo)).into_words();
    Word { hi, lo }
}

/// `&` on `U256`: bitwise and.
#[verifier::external_body]
pub(crate) fn and(a: Word, b: Word) -> (r: Word)
    ensures
        r@ == bit_and(a@, b@),
{
    let (hi, lo) = (U256::from_words(a.hi, a.lo) & U256::from_words(b.hi, b.lo)).into_words();
    Word { hi, lo }
}

/// `|` on `U256`: bitwise or.
#[verifier::external_body]
pub(crate) fn or(a: Word, b: Word) -> (r: Word)
    ensures
        r@ == bit_or(a@, b@),
{
    let (hi, lo) = (U256::from_words(a.hi, a.lo) | U256::from_words(b.hi, b.lo)).into_words();
    Word { hi, lo }
}

/// `^` on `U256`: bitwise exclusive or.
#[verifier::external_body]
pub(crate) fn xor(a: Word, b: Word) -> (r: Word)
    ensures
        r@ == bit_xor(a@, b@),
{
    let (hi, lo) = (U256::from_words(a.hi, a.lo) ^ U256::from_words(b.hi, b.lo)).into_words();
    Word { hi, lo }
}

/// `!` on `U256`: bitwise complement.
#[verifier::external_body]
pub(crate) fn not(a: Word) -> (r: Word)
    ensures
        r@ == bit_not(a@),
{
    let (hi, lo) = (!U256::from_words(a.hi, a.lo)).into_words();
    Word { hi, lo }
}

/// `<<` on `U256` by fewer than 256 places; bits moved past the top are lost.
#[verifier::external_body]
pub(crate) fn shift_left(a: Word, places: u32) -> (r: Word)
    requires
        places < 256,
    ensures
        r@ == (a@ * pow2(places as nat)) % modulus(),
{
    let (hi, lo) = (U256::from_words(a.hi, a.lo) << places).into_words();
    Word { hi, lo }
}

/// `>>` on `U256` by fewer than 256 places.
#[verifier::external_body]
pub(crate) fn shift_right(a: Word, places: u32) -> (r: Word)
    requires
        places < 256,
    ensures
        r@ == a@ / pow2(places as nat),
{
    let (hi, lo) = (U256::from_words(a.hi, a.lo) >> places).into_words();
    Word { hi, lo }
}

/// `2^places`.
pub(crate) fn power_of_two(places: u32) -> (r: Word)
    requires
        places < 256,
    ensures
        r@ == pow2(places as nat),
{
    proof {
        vstd::arithmetic::power2::lemma_pow2_strictly_increases(places as nat, 256);
        vstd::arithmetic::power2::lemma_pow2_pos(places as nat);
        vstd::arithmetic::div_mod::lemma_small_mod(pow2(places as nat), modulus());
    }
    shift_left(Word::small(1), places)
}

/// `2^places - 1`, a run of `places` one bits.
pub(crate) fn low_mask(places: u32) -> (r: Word)
    requires
        places < 256,
    ensures
        r@ == pow2(places as nat) - 1,
{
    proof {
        vstd::arithmetic::power2::lemma_pow2_pos(places as nat);
    }
    minus(power_of_two(places), Word::small(1))
}

/// The high half weighs `2^128`, and all of it `2^256`.
proof fn lemma_half_is_power()
    ensures
        pow2(128) == half(),
        modulus() == half() * half(),
{
    lemma2_to64();
    lemma_pow2_adds(64, 64);
    lemma_pow2_adds(128, 128);
}

/// A multiple of `2^k`, halved, is a multiple of `2^(k - 1)`.
proof fn lemma_halved_multiple(x: nat, k: nat)
    requires
        k > 0,
        x % pow2(k) == 0,
    ensures
        x % 2 == 0,
        (x / 2) % pow2((k - 1) as nat) == 0,
{
    let m = pow2((k - 1) as nat);
    lemma_pow2_pos((k - 1) as nat);
    lemma_pow2_unfold(k);
    let q = x as int / (2 * m as int);
    vstd::arithmetic::div_mod::lemma_fundamental_div_mod(x as int, 2 * m as int);
    assert(x == (2 * m as int) * q);
    assert((2 * m as int) * q == 2 * (m * q)) by (nonlinear_arith);
    assert(x as int / 2 == m * q);
    vstd::arithmetic::div_mod::lemma_mod_multiples_basic(q, m as int);
    assert(m * q == q * m) by (nonlinear_arith);
}

/// On 128 bits, a multiple of `2^k` or a number below `2^k` is their sum.
proof fn lemma_half_or_is_sum(x: u128, y: u128, k: nat)
    requires
        x as nat % pow2(k) == 0,
        y < pow2(k),
    ensures
        (x | y) == x + y,
    decreases k,
{
    if k == 0 {
        lemma2_to64();
        assert(x | 0u128 == x) by (bit_vector);
    } else {
        lemma_halved_multiple(x as nat, k);
        lemma_pow2_unfold(k);
        lemma_half_or_is_sum(x / 2, y / 2, (k - 1) as nat);
        assert((x | y) == 2 * ((x / 2) | (y / 2)) + y % 2) by (bit_vector)
            requires
                x % 2 == 0,
        ;
    }
}

/// A multiple of `2^k` or a number below `2^k` is their sum.
pub proof fn lemma_or_is_sum(a: nat, b: nat, k: nat)
    requires
        k <= 256,
        a < modulus(),
        a % pow2(k) == 0,
        b < pow2(k),
    ensures
        bit_or(a, b) == a + b,
{
    lemma_half_is_power();
    let h = half();
    vstd::arithmetic::div_mod::lemma_fundamental_div_mod(a as int, h);
    vstd::arithmetic::div_mod::lemma_fundamental_div_mod(b as int, h);
    let (ah, al) = (a as int / h, a as int % h);
    let (bh, bl) = (b as int / h, b as int % h);
    assert(0 <= ah < h) by (nonlinear_arith)
        requires
            a == h * ah + al,
            0 <= al < h,
            0 <= a < h * h,
            h > 0,
    ;
    if k >= 128 {
        let m = pow2((k - 128) as nat);
        lemma_pow2_pos((k - 128) as nat);
        lemma_pow2_adds(128, (k - 128) as nat);
        let q = a as int / (h * m);
        vstd::arithmetic::div_mod::lemma_fundamental_div_mod(a as int, h * m);
        assert(a == h * (m * q)) by (nonlinear_arith)
            requires
                a == (h * m) * q,
        ;
        vstd::arithmetic::div_mod::lemma_fundamental_div_mod_converse(a as int, h, m * q, 0);
        vstd::arithmetic::div_mod::lemma_mod_multiples_basic(q, m as int);
        assert(m * q == q * m) by (nonlinear_arith);
        assert(0 <= bh < m) by (nonlinear_arith)
            requires
                b == h * bh + bl,
                0 <= bl < h,
                0 <= b < h * m,
                h > 0,
        ;
        if k < 256 {
            lemma_pow2_strictly_increases((k - 128) as nat, 128);
        }
        assert(high(a) == ah && low(a) == 0);
        assert(high(b) == bh && low(b) == bl);
        lemma_half_or_is_sum(high(a), high(b), (k - 128) as nat);
        assert(0u128 | low(b) == low(b)) by {
            let y = low(b);
            assert(0u128 | y == y) by (bit_vector);
        }
        assert((ah + bh) * h == h * ah + h * bh) by (nonlinear_arith);
    } else {
        lemma_pow2_strictly_increases(k, 128);
        lemma_pow2_pos(k);
        lemma_pow2_pos((128 - k) as nat);
        lemma_pow2_adds(k, (128 - k) as nat);
        vstd::arithmetic::div_mod::lemma_mod_mod(
            a as int,
            pow2(k) as int,
            pow2((128 - k) as nat) as int,
        );
        vstd::arithmetic::div_mod::lemma_fundamental_div_mod_converse(
            b as int,
            h,
            0,
            b as int,
        );
        assert(high(b) == 0 && low(b) == b);
        assert(high(a) == ah && low(a) == al);
        lemma_half_or_is_sum(low(a), low(b), k);
        assert(high(a) | 0u128 == high(a)) by {
            let x = high(a);
            assert(x | 0u128 == x) by (bit_vector);
        }
        assert(ah * h == h * ah) by (nonlinear_arith);
    }
}

/// On 128 bits, the bits below the `k`th are the number modulo `2^k`.
proof fn lemma_half_mask_is_mod(x: u128, m: u128, k: nat)
    requires
        m == pow2(k) - 1,
    ensures
        (x & m) == x as nat % pow2(k),
    decreases k,
{
    if k == 0 {
        lemma2_to64();
        assert(x & 0u128 == 0u128) by (bit_vector);
    } else {
        let q = pow2((k - 1) as nat);
        lemma_pow2_unfold(k);
        lemma_pow2_pos((k - 1) as nat);
        lemma_half_mask_is_mod(x / 2, m / 2, (k - 1) as nat);
        assert((x & m) == 2 * ((x / 2) & (m / 2)) + x % 2) by (bit_vector)
            requires
                m % 2 == 1,
        ;
        vstd::arithmetic::div_mod::lemma_mod_breakdown(x as int, 2, q as int);
    }
}

/// The bits below the `k`th are the number modulo `2^k`.
pub proof fn lemma_mask_is_mod(w: Word, k: nat)
    requires
        k <= 256,
    ensures
        bit_and(w@, (pow2(k) - 1) as nat) == w@ % pow2(k),
{
    lemma_half_is_power();
    let h = half();
    let a = w@;
    let b = (pow2(k) - 1) as nat;
    lemma_pow2_pos(k);
    assert(high(a) == w.hi && low(a) == w.lo);
    if k > 128 {
        let m = pow2((k - 128) as nat);
        lemma_pow2_pos((k - 128) as nat);
        lemma_pow2_adds(128, (k - 128) as nat);
        if k < 256 {
            lemma_pow2_strictly_increases((k - 128) as nat, 128);
        }
        assert(b == h * (m - 1) + (h - 1)) by (nonlinear_arith)
            requires
                b == h * m - 1,
        ;
        vstd::arithmetic::div_mod::lemma_fundamental_div_mod_converse(b as int, h, m - 1, h - 1);
        lemma_half_mask_is_mod(w.hi, high(b), (k - 128) as nat);
        lemma_half_mask_is_mod(w.lo, low(b), 128);
        vstd::arithmetic::div_mod::lemma_small_mod(w.lo as nat, pow2(128));
        vstd::arithmetic::div_mod::lemma_mod_breakdown(a as int, h, m as int);
        let r = w.hi as int % m as int;
        assert(r * h == h * r) by (nonlinear_arith);
    } else {
        if k < 128 {
            lemma_pow2_strictly_increases(k, 128);
        }
        lemma_pow2_pos((128 - k) as nat);
        lemma_pow2_adds(k, (128 - k) as nat);
        vstd::arithmetic::div_mod::lemma_mod_mod(
            a as int,
            pow2(k) as int,
            pow2((128 - k) as nat) as int,
        );
        vstd::arithmetic::div_mod::lemma_fundamental_div_mod_converse(b as int, h, 0, b as int);
        lemma_half_mask_is_mod(w.lo, low(b), k);
        let x = w.hi;
        assert(x & 0u128 == 0u128) by (bit_vector);
    }
}

/// A word is a number below `2^256`.
pub proof fn lemma_below_modulus(w: Word)
    ensures
        w@ < modulus(),
{
    lemma_half_is_power();
    let (x, y) = (w.hi as int, w.lo as int);
    let h = half();
    assert(x * h + y < h * h) by (nonlinear_arith)
        requires
            0 <= x < h,
            0 <= y < h,
    ;
}

} // verus!
