//! One sample: a run of bit values with a parallel mask of the positions
//! that were observed.

use crate::alphabet::{accepted, all_accepted, observation, observations, FormatError};
use crate::metric::{differs, lemma_distance_bound, lemma_distance_step, masked_distance};
use crate::numeric::{count_from_u32, zero};
use crate::packed::{bit_count, lemma_word_of, max_bits, word_contents, words_for, PackedBits};
use crate::words::{
    lemma_bit_of_constant, lemma_bit_of_masked_xor, lemma_popcount_counts_bits, ones_in, popcount,
    word_bit, word_width,
};
use vstd::pervasive::unreached;
use std::str::Chars;
use vstd::prelude::*;
use vstd::std_specs::iter::IteratorSpec;

verus! {

/// A bit string in which some positions may be missing.
///
/// `bits` holds the values, `not_nas` has a one wherever the value was
/// observed. Both are packed into words.
pub struct BitArrNa {
    pub(crate) bits: PackedBits,
    pub(crate) not_nas: PackedBits,
}

impl View for BitArrNa {
    type V = Seq<Option<bool>>;

    /// Position by position: `Some(value)` where observed, `None` where
    /// missing.
    closed spec fn view(&self) -> Seq<Option<bool>> {
        Seq::new(
            self.bits@.len(),
            |i: int|
                if self.not_nas@[i] {
                    Some(self.bits@[i])
                } else {
                    None
                },
        )
    }
}

impl BitArrNa {
    /// Values and mask have the same length, each is stored in exactly the
    /// words it needs, and the unused end of the last value word is zero.
    pub closed spec fn wf(&self) -> bool {
        &&& self.bits.well_sized()
        &&& self.not_nas.well_sized()
        &&& bit_count(self.bits) == bit_count(self.not_nas)
        &&& self.bits.tail_clear()
    }

    /// A well-formed sample has no more positions than the packed storage
    /// can address.
    pub proof fn lemma_length_fits(&self)
        requires
            self.wf(),
        ensures
            self@.len() <= max_bits(),
    {
    }

    /// A sample of `size` positions, all observed and all zero.
    pub fn new(size: usize) -> (r: BitArrNa)
        requires
            size <= max_bits(),
        ensures
            r.wf(),
            r@ == Seq::new(size as nat, |i: int| Some(false)),
    {
        let bits = PackedBits::repeat(false, size);
        let not_nas = PackedBits::repeat(true, size);
        let r = BitArrNa { bits, not_nas };
        proof {
            assert forall|i: int| 0 <= i < size implies #[trigger] r@[i] == Some(false) by {
                lemma_word_of(i, size as nat);
                lemma_bit_of_constant((i % word_width() as int) as usize);
            }
            assert(r@ =~= Seq::new(size as nat, |i: int| Some(false)));
            if size > 0 {
                lemma_word_of(size - 1, size as nat);
                assert forall|p: usize| p < word_width() implies !#[trigger] word_bit(
                    word_contents(r.bits).last(),
                    p,
                ) by {
                    lemma_bit_of_constant(p);
                }
            }
        }
        r
    }

    /// The number of positions.
    pub fn len(&self) -> (n: usize)
        ensures
            n == self@.len(),
    {
        self.bits.len()
    }

    /// Records the value one at position `i`; whether the position counts
    /// as observed does not change.
    pub fn set_one(&mut self, i: usize)
        requires
            old(self).wf(),
            i < old(self)@.len(),
        ensures
            final(self).wf(),
            final(self)@ == old(self)@.update(
                i as int,
                if old(self)@[i as int] is Some {
                    Some(true)
                } else {
                    None
                },
            ),
    {
        self.bits.put(i, true);
        proof {
            assert(self@ =~= old(self)@.update(
                i as int,
                if old(self)@[i as int] is Some {
                    Some(true)
                } else {
                    None
                },
            ));
        }
    }

    /// Marks position `i` as missing.
    pub fn set_missing(&mut self, i: usize)
        requires
            old(self).wf(),
            i < old(self)@.len(),
        ensures
            final(self).wf(),
            final(self)@ == old(self)@.update(i as int, None),
    {
        self.not_nas.put(i, false);
        proof {
            assert(self@ =~= old(self)@.update(i as int, None));
        }
    }

    /// Writes `value` at position `i`.
    pub fn assign(&mut self, i: usize, value: Option<bool>)
        requires
            old(self).wf(),
            i < old(self)@.len(),
        ensures
            final(self).wf(),
            final(self)@ == old(self)@.update(i as int, value),
    {
        match value {
            Some(bit) => {
                self.bits.put(i, bit);
                self.not_nas.put(i, true);
            },
            None => {
                self.not_nas.put(i, false);
            },
        }
        proof {
            assert(self@ =~= old(self)@.update(i as int, value));
        }
    }

    /// Appends one position that holds `value`.
    pub fn push(&mut self, value: Option<bool>)
        requires
            old(self).wf(),
            old(self)@.len() < max_bits(),
        ensures
            final(self).wf(),
            final(self)@ == old(self)@.push(value),
    {
        match value {
            Some(bit) => {
                self.bits.append(bit);
                self.not_nas.append(true);
            },
            None => {
                self.bits.append(false);
                self.not_nas.append(false);
            },
        }
        proof {
            assert(self@ =~= old(self)@.push(value));
        }
    }

    /// Reads a sample from its text: `'0'` and `'1'` are values,
    /// `na_char` is a missing value. The first character that is none of
    /// these is reported, with its position counted from one.
    pub fn parse(string: &str, na_char: char) -> (r: Result<BitArrNa, FormatError>)
        requires
            string@.len() <= max_bits(),
        ensures
            match r {
                Ok(sample) => {
                    &&& all_accepted(string@, na_char)
                    &&& sample.wf()
                    &&& sample@ == observations(string@)
                },
                Err(e) => e.reports(string@, na_char),
            },
    {
        let size = string.unicode_len();
        let mut bitarr = BitArrNa::new(size);
        let mut chars = string.chars();
        let mut i: usize = 0;
        loop
            invariant
                size == string@.len(),
                i <= size,
                bitarr.wf(),
                bitarr@.len() == size,
                chars.remaining() == string@.skip(i as int),
                all_accepted(string@.take(i as int), na_char),
                forall|j: int| 0 <= j < i ==> #[trigger] bitarr@[j] == observation(string@[j]),
                forall|j: int| i <= j < size ==> #[trigger] bitarr@[j] == Some(false),
            decreases size - i,
        {
            match chars.next() {
                None => {
                    proof {
                        assert(string@.take(i as int) =~= string@);
                        assert(bitarr@ =~= observations(string@));
                    }
                    return Ok(bitarr);
                },
                Some(c) => {
                    proof {
                        assert(c == string@[i as int]);
                        assert(string@.skip(i as int).drop_first() =~= string@.skip(i + 1));
                    }
                    if c == '0' {
                    } else if c == '1' {
                        bitarr.set_one(i);
                    } else if c == na_char {
                        bitarr.set_missing(i);
                    } else {
                        return Err(FormatError { position: i + 1, found: c, na_char });
                    }
                    proof {
                        assert forall|j: int| 0 <= j < i + 1 implies accepted(
                            #[trigger] string@.take(i + 1)[j],
                            na_char,
                        ) by {
                            if j < i {
                                assert(string@.take(i as int)[j] == string@[j]);
                            }
                        }
                    }
                    i = i + 1;
                },
            }
        }
    }

    /// Reads a sample from its text, as `parse` does; an error comes back
    /// in words.
    pub fn from_string(string: &str, na_char: char) -> (r: Result<BitArrNa, String>)
        requires
            string@.len() <= max_bits(),
        ensures
            match r {
                Ok(sample) => {
                    &&& all_accepted(string@, na_char)
                    &&& sample.wf()
                    &&& sample@ == observations(string@)
                },
                Err(message) => exists|e: FormatError|
                    e.reports(string@, na_char) && message@ == e.message_text(),
            },
    {
        match BitArrNa::parse(string, na_char) {
            Ok(sample) => Ok(sample),
            Err(e) => Err(e.message()),
        }
    }
}

/// Position `k * width + p` lies in word `k`, at place `p`.
proof fn lemma_position_of(k: nat, p: nat)
    requires
        p < word_width(),
    ensures
        (k * word_width() + p) as int / (word_width() as int) == k,
        (k * word_width() + p) as int % (word_width() as int) == p,
{
    let w = word_width() as int;
    assert((k * w + p) / w == k && (k * w + p) % w == p) by (nonlinear_arith)
        requires
            0 <= p < w,
            0 <= k,
    ;
}

/// The number of positions that the first `k` words cover in a run of `n`.
spec fn covered(k: nat, n: nat) -> nat {
    if k * word_width() <= n {
        k * word_width()
    } else {
        n
    }
}

impl BitArrNa {
    /// Word `k` of the comparison of two samples: a one wherever the values
    /// differ and both samples have the position.
    spec fn masked_word(&self, other: &BitArrNa, k: int) -> usize {
        (word_contents(self.bits)[k] ^ word_contents(other.bits)[k]) & (word_contents(
            self.not_nas,
        )[k] & word_contents(other.not_nas)[k])
    }

    proof fn lemma_word_prefix(&self, other: &BitArrNa, k: nat, p: nat)
        requires
            self.wf(),
            other.wf(),
            self@.len() == other@.len(),
            p <= word_width(),
            k * word_width() + p <= self@.len(),
        ensures
            masked_distance(
                self@.take((k * word_width() + p) as int),
                other@.take((k * word_width() + p) as int),
            ) == masked_distance(
                self@.take((k * word_width()) as int),
                other@.take((k * word_width()) as int),
            ) + ones_in(self.masked_word(other, k as int), 0, p),
        decreases p,
    {
        if p > 0 {
            let q = (p - 1) as nat;
            let i = (k * word_width() + q) as int;
            self.lemma_word_prefix(other, k, q);
            lemma_distance_step(self@, other@, i);
            lemma_position_of(k, q);
            lemma_word_of(i, self@.len());
            lemma_bit_of_masked_xor(
                word_contents(self.bits)[k as int],
                word_contents(other.bits)[k as int],
                word_contents(self.not_nas)[k as int],
                word_contents(other.not_nas)[k as int],
                q as usize,
            );
            assert(differs(self@[i], other@[i]) == word_bit(
                self.masked_word(other, k as int),
                q as usize,
            ));
        }
    }

    proof fn lemma_word_tail(&self, other: &BitArrNa, k: nat, live: nat, q: nat)
        requires
            self.wf(),
            other.wf(),
            self@.len() == other@.len(),
            0 < live < word_width(),
            k * word_width() + live == self@.len(),
            live <= q <= word_width(),
        ensures
            ones_in(self.masked_word(other, k as int), 0, q) == ones_in(
                self.masked_word(other, k as int),
                0,
                live,
            ),
        decreases q,
    {
        if q > live {
            let p = (q - 1) as usize;
            self.lemma_word_tail(other, k, live, (q - 1) as nat);
            lemma_position_of(k, (live - 1) as nat);
            lemma_word_of((self@.len() - 1) as int, self@.len());
            let n = self@.len();
            assert(n as int % (word_width() as int) == live) by {
                lemma_position_of(k, live);
            }
            assert(n as int / (word_width() as int) == k) by {
                lemma_position_of(k, live);
            }
            assert(words_for(n) == k + 1) by {
                let w = word_width() as int;
                assert((k * w + live + w - 1) / w == k + 1) by (nonlinear_arith)
                    requires
                        0 < live < w,
                        0 <= k,
                ;
            }
            assert(word_contents(self.bits).last() == word_contents(self.bits)[k as int]);
            assert(word_contents(other.bits).last() == word_contents(other.bits)[k as int]);
            assert(!word_bit(word_contents(self.bits).last(), p));
            assert(!word_bit(word_contents(other.bits).last(), p));
            lemma_bit_of_masked_xor(
                word_contents(self.bits)[k as int],
                word_contents(other.bits)[k as int],
                word_contents(self.not_nas)[k as int],
                word_contents(other.not_nas)[k as int],
                p,
            );
        }
    }

    /// One more word adds its population count to the distance of the
    /// positions covered so far.
    proof fn lemma_word_step(&self, other: &BitArrNa, k: nat)
        requires
            self.wf(),
            other.wf(),
            self@.len() == other@.len(),
            k < words_for(self@.len()),
        ensures
            masked_distance(
                self@.take(covered(k + 1, self@.len()) as int),
                other@.take(covered(k + 1, self@.len()) as int),
            ) == masked_distance(
                self@.take(covered(k, self@.len()) as int),
                other@.take(covered(k, self@.len()) as int),
            ) + popcount(self.masked_word(other, k as int)),
    {
        let w = word_width();
        let n = self@.len();
        assert(w == 32 || w == 64);
        assert(k * w < n) by (nonlinear_arith)
            requires
                k < (n + w - 1) as nat / w,
                w > 0,
        ;
        assert((k + 1) * w == k * w + w) by (nonlinear_arith);
        lemma_popcount_counts_bits(self.masked_word(other, k as int));
        if (k + 1) * w <= n {
            self.lemma_word_prefix(other, k, w);
        } else {
            let live = (n - k * w) as nat;
            self.lemma_word_prefix(other, k, live);
            self.lemma_word_tail(other, k, live, w);
        }
    }

    /// The masked Hamming distance to `other`: the number of positions that
    /// both samples observed and at which their values differ. It is
    /// computed a word at a time.
    pub fn dist(&self, other: &BitArrNa) -> (d: usize)
        requires
            self.wf(),
            other.wf(),
            self@.len() == other@.len(),
        ensures
            d == masked_distance(self@, other@),
    {
        let bits = self.bits.as_slice();
        let not_nas = self.not_nas.as_slice();
        let other_bits = other.bits.as_slice();
        let other_not_nas = other.not_nas.as_slice();
        let words: usize = bits.len();
        let mut result: usize = zero();
        let mut k: usize = 0;
        proof {
            assert(self@.take(0) =~= Seq::<Option<bool>>::empty());
        }
        while k < words
            invariant
                self.wf(),
                other.wf(),
                self@.len() == other@.len(),
                bits@ == word_contents(self.bits),
                not_nas@ == word_contents(self.not_nas),
                other_bits@ == word_contents(other.bits),
                other_not_nas@ == word_contents(other.not_nas),
                words == words_for(self@.len()),
                k <= words,
                result == masked_distance(
                    self@.take(covered(k as nat, self@.len()) as int),
                    other@.take(covered(k as nat, self@.len()) as int),
                ),
            decreases words - k,
        {
            let res_bits = bits[k] ^ other_bits[k];
            let res_not_nas = not_nas[k] & other_not_nas[k];
            let ones = (res_bits & res_not_nas).count_ones();
            proof {
                self.lemma_word_step(other, k as nat);
                lemma_distance_bound(
                    self@.take(covered((k + 1) as nat, self@.len()) as int),
                    other@.take(covered((k + 1) as nat, self@.len()) as int),
                );
            }
            let incr = match count_from_u32(ones) {
                Some(incr) => incr,
                None => unreached(),
            };
            result = result + incr;
            k = k + 1;
        }
        proof {
            let w = word_width();
            let n = self@.len();
            assert(w == 32 || w == 64);
            assert(words_for(n) * w >= n) by (nonlinear_arith)
                requires
                    w > 0,
                    words_for(n) == (n + w - 1) as nat / w,
            ;
            assert(self@.take(n as int) =~= self@);
            assert(other@.take(n as int) =~= other@);
        }
        result
    }
}

} // verus!
