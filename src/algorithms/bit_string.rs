use vstd::arithmetic::div_mod::{
    lemma_div_denominator, lemma_fundamental_div_mod_converse,
    lemma_mod_breakdown, lemma_multiply_divide_lt,
};
use vstd::arithmetic::power2::{lemma_pow2_adds, lemma_pow2_pos, lemma_pow2_unfold, pow2};
use vstd::prelude::*;

verus! {

/// The digit that stands for one bit.
pub open spec fn bit_char(b: bool) -> char {
    if b {
        '1'
    } else {
        '0'
    }
}

/// The `width` low bits of `n`, most significant first.
pub open spec fn bits_of(n: nat, width: nat) -> Seq<char>
    decreases width,
{
    if width == 0 {
        Seq::empty()
    } else {
        bits_of(n / 2, (width - 1) as nat).push(bit_char(n % 2 == 1))
    }
}

/// The number that a string of binary digits spells, most significant first.
pub open spec fn value_of(s: Seq<char>) -> nat
    decreases s.len(),
{
    if s.len() == 0 {
        0
    } else {
        2 * value_of(s.drop_last()) + if s.last() == '1' {
            1nat
        } else {
            0nat
        }
    }
}

/// `p` is a prefix of `s`.
pub open spec fn is_prefix_of(p: Seq<char>, s: Seq<char>) -> bool {
    p.len() <= s.len() && s.subrange(0, p.len() as int) == p
}

/// A code of width `width` has `width` digits.
pub proof fn lemma_bits_len(n: nat, width: nat)
    ensures
        bits_of(n, width).len() == width,
    decreases width,
{
    if width > 0 {
        lemma_bits_len(n / 2, (width - 1) as nat);
    }
}

/// Reading the digits back gives the low `width` bits of `n`.
pub proof fn lemma_value_of_bits(n: nat, width: nat)
    ensures
        value_of(bits_of(n, width)) == n % pow2(width),
    decreases width,
{
    if width == 0 {
        vstd::arithmetic::power2::lemma2_to64();
    } else {
        let w1 = (width - 1) as nat;
        lemma_value_of_bits(n / 2, w1);
        let s = bits_of(n, width);
        assert(s.drop_last() == bits_of(n / 2, w1));
        lemma_pow2_unfold(width);
        lemma_pow2_pos(w1);
        lemma_mod_breakdown(n as int, 2, pow2(w1) as int);
    }
}

/// Codes of one width spell the numbers below `2^width` one for one.
pub proof fn lemma_bits_injective(x: nat, y: nat, width: nat)
    requires
        x < pow2(width),
        y < pow2(width),
        bits_of(x, width) == bits_of(y, width),
    ensures
        x == y,
{
    lemma_value_of_bits(x, width);
    lemma_value_of_bits(y, width);
    vstd::arithmetic::div_mod::lemma_small_mod(x, pow2(width));
    vstd::arithmetic::div_mod::lemma_small_mod(y, pow2(width));
}

/// The `hi + lo` bits of `n` are its high part followed by its low part.
pub proof fn lemma_bits_split(n: nat, hi: nat, lo: nat)
    ensures
        bits_of(n, hi + lo) == bits_of(n / pow2(lo), hi) + bits_of(n % pow2(lo), lo),
    decreases lo,
{
    if lo == 0 {
        vstd::arithmetic::power2::lemma2_to64();
        assert(bits_of(n, hi + lo) == bits_of(n / pow2(lo), hi) + bits_of(n % pow2(lo), lo));
    } else {
        let l1 = (lo - 1) as nat;
        lemma_bits_split(n / 2, hi, l1);
        lemma_pow2_unfold(lo);
        lemma_pow2_pos(l1);
        lemma_div_denominator(n as int, 2, pow2(l1) as int);
        lemma_mod_breakdown(n as int, 2, pow2(l1) as int);
        let m = n % pow2(lo);
        lemma_fundamental_div_mod_converse(m as int, 2, ((n / 2) % pow2(l1)) as int, (n % 2) as int);
        assert(bits_of(m, lo) == bits_of(m / 2, l1).push(bit_char(m % 2 == 1)));
        assert(bits_of(n, hi + lo) == bits_of(n / 2, hi + l1).push(bit_char(n % 2 == 1)));
        assert(bits_of(n, hi + lo) =~= bits_of(n / pow2(lo), hi) + bits_of(n % pow2(lo), lo));
    }
}

/// The code `bits_of(v, len)` is a prefix of the code `bits_of(x, width)`
/// exactly when `v` is the high part of `x`.
pub proof fn lemma_prefix_iff_high_part(v: nat, len: nat, x: nat, width: nat)
    requires
        len <= width,
        v < pow2(len),
        x < pow2(width),
    ensures
        is_prefix_of(bits_of(v, len), bits_of(x, width)) <==> x / pow2(
            (width - len) as nat,
        ) == v,
{
    let lo = (width - len) as nat;
    lemma_bits_split(x, len, lo);
    lemma_bits_len(x / pow2(lo), len);
    lemma_bits_len(x % pow2(lo), lo);
    lemma_bits_len(v, len);
    lemma_bits_len(x, width);
    let whole = bits_of(x, width);
    assert(whole.subrange(0, len as int) =~= bits_of(x / pow2(lo), len));
    lemma_pow2_adds(len, lo);
    lemma_pow2_pos(lo);
    lemma_multiply_divide_lt(x as int, pow2(lo) as int, pow2(len) as int);
    if is_prefix_of(bits_of(v, len), whole) {
        lemma_bits_injective(v, x / pow2(lo), len);
    }
}

} // verus!
