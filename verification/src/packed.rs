//! Bit-packed storage: a growable run of bits kept in machine words, with the
//! word-level facts that the distance computation is proved from.

use crate::words::{
    lemma_bit_of_constant, lemma_bit_of_with_bit, with_bit, word_bit, word_width,
};
use bitvec::order::Lsb0;
use bitvec::vec::BitVec;
use vstd::prelude::*;

verus! {

/// Largest number of bits that one `PackedBits` can hold: the backing
/// bit vector keeps its length in a word of which three bits are taken.
pub open spec fn max_bits() -> nat {
    (usize::MAX / 8) as nat
}

/// Number of words needed for `n` bits.
pub open spec fn words_for(n: nat) -> nat {
    (n + word_width() - 1) as nat / word_width()
}

/// The storage words after one more bit, `value`, has been appended to a run
/// of `count` bits held in `words`.
pub open spec fn pushed_words(words: Seq<usize>, count: nat, value: bool) -> Seq<usize> {
    let base = if count % word_width() == 0 {
        words.push(0usize)
    } else {
        words
    };
    let k = count as int / word_width() as int;
    base.update(k, with_bit(base[k], (count % word_width()) as usize, value))
}

/// A run of bits packed into `usize` words, least significant bit first.
///
/// The bits live in a `bitvec::vec::BitVec<Lsb0, usize>` that only the
/// functions of this module create and change. Each of them leaves the
/// first bit at bit 0 of the first word, which is what the contracts
/// below rely on when they say which word and which bit an index names.
#[verifier::external_body]
pub struct PackedBits {
    inner: BitVec<Lsb0, usize>,
}

/// The storage words of a `PackedBits`, first word first.
pub uninterp spec fn word_contents(b: PackedBits) -> Seq<usize>;

/// The number of bits that a `PackedBits` holds.
pub uninterp spec fn bit_count(b: PackedBits) -> nat;

impl PackedBits {
    /// The words needed for the bits are all there, and no more.
    pub open spec fn well_sized(self) -> bool {
        &&& bit_count(self) <= max_bits()
        &&& word_contents(self).len() == words_for(bit_count(self))
    }

    /// The bit at position `i`.
    pub open spec fn bit(self, i: int) -> bool {
        word_bit(
            word_contents(self)[i / word_width() as int],
            (i % word_width() as int) as usize,
        )
    }

    /// Every bit of the last word past the end of the run is clear.
    pub open spec fn tail_clear(self) -> bool {
        forall|p: usize|
            bit_count(self) % word_width() != 0 && bit_count(self) % word_width() <= p
                < word_width() ==> !#[trigger] word_bit(word_contents(self).last(), p)
    }
}

impl PackedBits {
    /// Calls `BitVec::repeat`: a run of `len` bits in which every storage
    /// word is all ones (for `bit`) or all zeros, the bits past the end of
    /// the last word included.
    #[verifier::external_body]
    pub(crate) fn repeat(bit: bool, len: usize) -> (r: PackedBits)
        requires
            len <= max_bits(),
        ensures
            bit_count(r) == len,
            word_contents(r) == Seq::new(
                words_for(len as nat),
                |k: int|
                    if bit {
                        !0usize
                    } else {
                        0usize
                    },
            ),
    {
        PackedBits { inner: BitVec::repeat(bit, len) }
    }

    /// Calls `BitSlice::len` through the vector: the number of bits held.
    #[verifier::external_body]
    pub(crate) fn len(&self) -> (n: usize)
        ensures
            n == bit_count(*self),
    {
        self.inner.len()
    }

    /// Calls `BitSlice::set` through the vector: bit `index % width` of word
    /// `index / width` becomes `value`, by an `or` with the bit's mask or an
    /// `and` with its complement; nothing else changes.
    #[verifier::external_body]
    pub(crate) fn set(&mut self, index: usize, value: bool)
        requires
            index < bit_count(*old(self)),
        ensures
            bit_count(*final(self)) == bit_count(*old(self)),
            word_contents(*final(self)) == word_contents(*old(self)).update(
                index as int / word_width() as int,
                with_bit(
                    word_contents(*old(self))[index as int / word_width() as int],
                    (index as int % word_width() as int) as usize,
                    value,
                ),
            ),
    {
        self.inner.set(index, value)
    }

    /// Calls `BitVec::push`: the run grows by one bit. Where the old length
    /// is a multiple of the word width a zero word is appended first; then
    /// the new bit is written as `set` writes it.
    #[verifier::external_body]
    pub(crate) fn push(&mut self, value: bool)
        requires
            bit_count(*old(self)) < max_bits(),
        ensures
            bit_count(*final(self)) == bit_count(*old(self)) + 1,
            word_contents(*final(self)) == pushed_words(
                word_contents(*old(self)),
                bit_count(*old(self)),
                value,
            ),
    {
        self.inner.push(value)
    }

    /// Calls `BitVec::as_slice`: the storage words.
    #[verifier::external_body]
    pub(crate) fn as_slice(&self) -> (words: &[usize])
        ensures
            words@ == word_contents(*self),
    {
        self.inner.as_slice()
    }
}

/// Where positions fall: the word of position `i` exists in a run of `n`
/// bits, and two positions in one word at one place are the same position.
pub proof fn lemma_word_of(i: int, n: nat)
    requires
        0 <= i < n,
    ensures
        0 <= i / (word_width() as int) < words_for(n),
        0 <= i % (word_width() as int) < word_width(),
        word_width() == 32 || word_width() == 64,
        i == (i / (word_width() as int)) * word_width() + i % (word_width() as int),
        n % word_width() != 0 ==> words_for(n) == n / word_width() + 1,
        n % word_width() == 0 ==> words_for(n) == n / word_width(),
{
    let w = word_width() as int;
    assert(w == 32 || w == 64);
    assert(0 <= i / w < (n + w - 1) / w && 0 <= i % w < w && i == (i / w) * w + i % w)
        by (nonlinear_arith)
        requires
            0 <= i < n,
            w > 0,
    ;
    lemma_words_for(n);
}

/// The number of words for `n` bits, by whether `n` fills its last word.
pub proof fn lemma_words_for(n: nat)
    ensures
        word_width() == 32 || word_width() == 64,
        n % word_width() != 0 ==> words_for(n) == n / word_width() + 1,
        n % word_width() == 0 ==> words_for(n) == n / word_width(),
{
    let w = word_width() as int;
    let m = n as int;
    assert(w == 32 || w == 64);
    assert((m % w != 0 ==> (m + w - 1) / w == m / w + 1) && (m % w == 0 ==> (m + w - 1) / w == m
        / w)) by (nonlinear_arith)
        requires
            0 <= m,
            w > 0,
    ;
}

impl PackedBits {
    /// Sets the bit at `index` to `value`.
    pub(crate) fn put(&mut self, index: usize, value: bool)
        requires
            old(self).well_sized(),
            index < bit_count(*old(self)),
        ensures
            final(self).well_sized(),
            bit_count(*final(self)) == bit_count(*old(self)),
            final(self)@ == old(self)@.update(index as int, value),
            old(self).tail_clear() ==> final(self).tail_clear(),
    {
        let ghost before = *self;
        self.set(index, value);
        proof {
            let n = bit_count(before);
            let w = word_width() as int;
            let k = index as int / w;
            let p = (index as int % w) as usize;
            lemma_word_of(index as int, n);
            assert forall|j: int| 0 <= j < n implies #[trigger] self@[j] == before@.update(
                index as int,
                value,
            )[j] by {
                lemma_word_of(j, n);
                if j / w == k {
                    lemma_bit_of_with_bit(
                        word_contents(before)[k],
                        p,
                        value,
                        (j % w) as usize,
                    );
                }
            }
            assert(self@ =~= before@.update(index as int, value));
            if before.tail_clear() {
                assert forall|q: usize| n % word_width() != 0 && n % word_width() <= q < w implies !#[trigger] word_bit(
                    word_contents(*self).last(), q) by {
                    assert(!word_bit(word_contents(before).last(), q));
                    if k == words_for(n) - 1 {
                        lemma_word_of(n as int, n + 1);
                        assert(n as int / w == k);
                        assert(index as int == k * w + p);
                        assert(n as int == k * w + n as int % w);
                        assert(p < n % word_width());
                        lemma_bit_of_with_bit(word_contents(before)[k], p, value, q);
                    }
                }
            }
        }
    }

    /// Appends one bit.
    pub(crate) fn append(&mut self, value: bool)
        requires
            old(self).well_sized(),
            bit_count(*old(self)) < max_bits(),
        ensures
            final(self).well_sized(),
            bit_count(*final(self)) == bit_count(*old(self)) + 1,
            final(self)@ == old(self)@.push(value),
            old(self).tail_clear() ==> final(self).tail_clear(),
    {
        let ghost before = *self;
        self.push(value);
        proof {
            let n = bit_count(before);
            let w = word_width() as int;
            let k = n as int / w;
            let p = (n as int % w) as usize;
            lemma_word_of(n as int, n + 1);
            lemma_words_for(n);
            lemma_words_for(n + 1);
            assert((n + 1) % (w as nat) == (if p + 1 == w { 0 } else { p + 1 })
                && (n + 1) as int / w == (if p + 1 == w { k + 1 } else { k })) by (nonlinear_arith)
                requires
                    k == n as int / w,
                    p == n as int % w,
                    w > 0,
            ;
            let base = if n % word_width() == 0 {
                word_contents(before).push(0usize)
            } else {
                word_contents(before)
            };
            assert(base.len() == k + 1);
            assert(word_contents(*self) == base.update(k, with_bit(base[k], p, value)));
            assert forall|j: int| 0 <= j < n + 1 implies #[trigger] self@[j] == before@.push(
                value,
            )[j] by {
                lemma_word_of(j, n + 1);
                if j / w == k {
                    lemma_bit_of_with_bit(base[k], p, value, (j % w) as usize);
                    if j < n {
                        assert(j % w != p as int) by (nonlinear_arith)
                            requires
                                j < n,
                                j / w == k,
                                k == n as int / w,
                                p == n as int % w,
                                w > 0,
                                0 <= j,
                        ;
                    } else {
                    }
                }
            }
            assert(self@ =~= before@.push(value));
            if before.tail_clear() {
                assert forall|q: usize| (n + 1) % word_width() != 0 && (n + 1) % word_width() <= q
                    < w implies !#[trigger] word_bit(word_contents(*self).last(), q) by {
                    lemma_bit_of_with_bit(base[k], p, value, q);
                    if n % word_width() == 0 {
                        lemma_bit_of_constant(q);
                    } else {
                        assert(!word_bit(word_contents(before).last(), q));
                    }
                }
            }
        }
    }
}

impl View for PackedBits {
    type V = Seq<bool>;

    open spec fn view(&self) -> Seq<bool> {
        Seq::new(bit_count(*self), |i: int| self.bit(i))
    }
}

} // verus!
