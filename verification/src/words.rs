//! Facts about single storage words: counting set bits, and what the bitwise
//! operations do to each bit.

use vstd::prelude::*;

verus! {

/// Number of bits in one storage word.
pub open spec fn word_width() -> nat {
    usize::BITS as nat
}

/// Whether bit `p` (counted from the least significant end) of `w` is set.
pub open spec fn word_bit(w: usize, p: usize) -> bool {
    (w >> p) & 1 == 1
}

/// The word `w` with bit `p` set to `value` and every other bit unchanged.
pub open spec fn with_bit(w: usize, p: usize, value: bool) -> usize {
    if value {
        w | (1usize << p)
    } else {
        w & !(1usize << p)
    }
}

/// Number of ones in the binary representation of `w`.
pub open spec fn popcount(w: usize) -> nat
    decreases w,
{
    if w == 0 {
        0
    } else {
        (w % 2) as nat + popcount(w / 2)
    }
}

/// `usize::count_ones` returns the number of ones in the binary
/// representation of its argument.
pub assume_specification[ usize::count_ones ](w: usize) -> (n: u32)
    ensures
        n == popcount(w),
;

/// One if `b`, else zero.
pub open spec fn unit(b: bool) -> nat {
    if b {
        1
    } else {
        0
    }
}

/// Number of set bits of `w` at the positions `lo <= p < hi`.
pub open spec fn ones_in(w: usize, lo: nat, hi: nat) -> nat
    decreases hi,
{
    if hi <= lo {
        0
    } else {
        ones_in(w, lo, (hi - 1) as nat) + unit(word_bit(w, (hi - 1) as usize))
    }
}

/// Counting a range of bits may start at its lowest position.
pub proof fn lemma_ones_in_first(w: usize, lo: nat, hi: nat)
    requires
        lo < hi,
    ensures
        ones_in(w, lo, hi) == unit(word_bit(w, lo as usize)) + ones_in(w, lo + 1, hi),
    decreases hi,
{
    if hi == lo + 1 {
        assert(ones_in(w, lo, lo) == 0);
        assert(ones_in(w, lo + 1, hi) == 0);
    } else {
        lemma_ones_in_first(w, lo, (hi - 1) as nat);
    }
}

/// `w` moved down by `from` places; nothing is left once `from` reaches the
/// word width.
pub open spec fn shifted(w: usize, from: nat) -> usize {
    if from < word_width() {
        w >> (from as usize)
    } else {
        0
    }
}

proof fn lemma_popcount_shifted(w: usize, from: nat)
    requires
        from <= word_width(),
    ensures
        popcount(shifted(w, from)) == ones_in(w, from, word_width()),
    decreases word_width() - from,
{
    if from < word_width() {
        let f = from as usize;
        let x = shifted(w, from);
        assert(((w >> f) % 2 == 1) == ((w >> f) & 1 == 1)) by (bit_vector);
        assert((w >> f) % 2 == 0 || (w >> f) % 2 == 1) by (bit_vector);
        assert(f + 1 < usize::BITS ==> (w >> f) / 2 == w >> ((f + 1) as usize)) by (bit_vector)
            requires
                f < usize::BITS,
        ;
        assert(f + 1 == usize::BITS ==> (w >> f) / 2 == 0) by (bit_vector)
            requires
                f < usize::BITS,
        ;
        assert(x / 2 == shifted(w, from + 1));
        assert(popcount(x) == (x % 2) as nat + popcount(x / 2));
        lemma_popcount_shifted(w, from + 1);
        lemma_ones_in_first(w, from, word_width());
    } else {
        assert(popcount(0) == 0);
    }
}

/// The population count of a word is the number of its set bits.
pub proof fn lemma_popcount_counts_bits(w: usize)
    ensures
        popcount(w) == ones_in(w, 0, word_width()),
{
    assert(w >> 0 == w) by (bit_vector);
    lemma_popcount_shifted(w, 0);
}

/// Bit `p` of the masked difference of two value words: set where the
/// values differ and both masks have the position.
pub proof fn lemma_bit_of_masked_xor(a: usize, b: usize, c: usize, d: usize, p: usize)
    requires
        p < word_width(),
    ensures
        word_bit((a ^ b) & (c & d), p) == ((word_bit(a, p) != word_bit(b, p)) && word_bit(c, p)
            && word_bit(d, p)),
{
    assert(((((a ^ b) & (c & d)) >> p) & 1 == 1) == (((((a >> p) & 1) == 1) != (((b >> p) & 1)
        == 1)) && ((c >> p) & 1 == 1) && ((d >> p) & 1 == 1))) by (bit_vector)
        requires
            p < usize::BITS,
    ;
}

/// Writing one bit of a word changes that bit and no other.
pub proof fn lemma_bit_of_with_bit(w: usize, p: usize, value: bool, q: usize)
    requires
        p < word_width(),
        q < word_width(),
    ensures
        word_bit(with_bit(w, p, value), q) == if q == p {
            value
        } else {
            word_bit(w, q)
        },
{
    assert((((w | (1usize << p)) >> q) & 1 == 1) == (q == p || ((w >> q) & 1 == 1)))
        by (bit_vector)
        requires
            p < usize::BITS,
            q < usize::BITS,
    ;
    assert((((w & !(1usize << p)) >> q) & 1 == 1) == (q != p && ((w >> q) & 1 == 1)))
        by (bit_vector)
        requires
            p < usize::BITS,
            q < usize::BITS,
    ;
}

/// The all-zero word has no bit set, the all-one word every bit.
pub proof fn lemma_bit_of_constant(p: usize)
    requires
        p < word_width(),
    ensures
        !word_bit(0usize, p),
        word_bit(!0usize, p),
{
    assert((0usize >> p) & 1 == 0) by (bit_vector);
    assert((!0usize >> p) & 1 == 1) by (bit_vector)
        requires
            p < usize::BITS,
    ;
}

} // verus!
