//! All pairwise distances of a collection of samples, one row of the
//! triangular store at a time.

use crate::bitarr::BitArrNa;
use crate::metric::{
    lemma_distance_bound, lemma_distance_symmetric, lemma_distance_to_self, masked_distance,
};
use crate::text::lines_text;
use crate::trimat::TriMat;
use vstd::prelude::*;

verus! {

/// Every sample is well formed, and all have one length.
pub open spec fn comparable(samples: Seq<BitArrNa>) -> bool {
    &&& forall|i: int| 0 <= i < samples.len() ==> (#[trigger] samples[i]).wf()
    &&& forall|i: int, j: int|
        0 <= i < samples.len() && 0 <= j < samples.len() ==> (#[trigger] samples[i])@.len() == (
        #[trigger] samples[j])@.len()
}

/// Every sample is well formed.
pub open spec fn all_wf(samples: Seq<BitArrNa>) -> bool {
    forall|i: int| 0 <= i < samples.len() ==> (#[trigger] samples[i]).wf()
}

/// A sample whose length differs from that of the first sample.
#[derive(Debug, Clone, Copy, PartialEq, Eq, Structural)]
pub struct ShapeError {
    /// Which sample, counted from zero.
    pub index: usize,
    /// The length of the first sample.
    pub expected: usize,
    /// The length of this one.
    pub found: usize,
}

impl ShapeError {
    /// Whether this error names the first sample of `samples` that is not
    /// as long as sample zero.
    pub open spec fn reports(&self, samples: Seq<BitArrNa>) -> bool {
        &&& 1 <= self.index < samples.len()
        &&& self.expected == samples[0]@.len()
        &&& self.found == samples[self.index as int]@.len()
        &&& self.found != self.expected
        &&& forall|k: int|
            0 <= k < self.index ==> (#[trigger] samples[k])@.len() == samples[0]@.len()
    }
}

/// Checks that all samples have one length.
pub fn check_lengths(samples: &Vec<BitArrNa>) -> (r: Result<(), ShapeError>)
    ensures
        match r {
            Ok(()) => forall|i: int, j: int|
                0 <= i < samples@.len() && 0 <= j < samples@.len() ==> (#[trigger] samples@[i])@.len()
                    == (#[trigger] samples@[j])@.len(),
            Err(e) => e.reports(samples@),
        },
{
    let n = samples.len();
    if n == 0 {
        return Ok(());
    }
    let expected = samples[0].len();
    let mut k: usize = 1;
    while k < n
        invariant
            n == samples@.len(),
            1 <= k <= n,
            expected == samples@[0]@.len(),
            forall|i: int| 0 <= i < k ==> (#[trigger] samples@[i])@.len() == expected,
        decreases n - k,
    {
        let found = samples[k].len();
        if found != expected {
            return Err(ShapeError { index: k, expected, found });
        }
        k = k + 1;
    }
    Ok(())
}

/// The distance matrix of `samples`, after a check that they all have one
/// length; the first sample that has another is reported instead.
pub fn checked_distance_matrix(samples: &Vec<BitArrNa>) -> (r: Result<TriMat<usize>, ShapeError>)
    requires
        all_wf(samples@),
        samples@.len() >= 1,
    ensures
        match r {
            Ok(dists) => {
                &&& comparable(samples@)
                &&& dists.complete()
                &&& dists@.len() == samples@.len() - 1
                &&& forall|i: int, j: int|
                    0 <= i < samples@.len() && 0 <= j < samples@.len() ==> #[trigger] dists.entry(
                        i,
                        j,
                    ) == pair_distance(samples@, i, j)
            },
            Err(e) => e.reports(samples@),
        },
{
    match check_lengths(samples) {
        Err(e) => Err(e),
        Ok(()) => Ok(distance_matrix(samples)),
    }
}

/// The distance between samples `i` and `j`.
pub open spec fn pair_distance(samples: Seq<BitArrNa>, i: int, j: int) -> nat {
    masked_distance(samples[i]@, samples[j]@)
}

/// Row `i` of the store: the distances from sample `i` to each later
/// sample, in ascending order of the later sample's index.
pub open spec fn row_distances(samples: Seq<BitArrNa>, i: int) -> Seq<usize> {
    Seq::new(
        (samples.len() - 1 - i) as nat,
        |k: int| pair_distance(samples, i, i + 1 + k) as usize,
    )
}

/// Computes the distances from sample `i` to every later sample, in
/// ascending order, and appends them to `row`.
///
/// This is one unit of work: it reads the samples, writes only `row`, and
/// what it appends depends on nothing but the samples and `i`.
pub fn fill_row(samples: &Vec<BitArrNa>, i: usize, row: &mut Vec<usize>)
    requires
        comparable(samples@),
        i < samples@.len(),
    ensures
        final(row)@ == old(row)@ + row_distances(samples@, i as int),
{
    let n = samples.len();
    let ghost start = row@;
    let mut j: usize = i + 1;
    proof {
        assert(row@ =~= start + row_distances(samples@, i as int).take(0));
    }
    while j < n
        invariant
            comparable(samples@),
            n == samples@.len(),
            i < j <= n,
            start == old(row)@,
            row@ == start + row_distances(samples@, i as int).take(j - i - 1),
        decreases n - j,
    {
        let d = samples[i].dist(&samples[j]);
        row.push(d);
        proof {
            let whole = row_distances(samples@, i as int);
            assert(whole[j - i - 1] == d);
            assert(whole.take(j - i) =~= whole.take(j - i - 1).push(d));
            assert(row@ =~= start + whole.take(j - i));
        }
        j = j + 1;
    }
    proof {
        let whole = row_distances(samples@, i as int);
        assert(whole.take(n - i - 1) =~= whole);
    }
}

/// The distance matrix of `samples`: entry `(i, j)` is the masked Hamming
/// distance between samples `i` and `j`.
pub fn distance_matrix(samples: &Vec<BitArrNa>) -> (dists: TriMat<usize>)
    requires
        comparable(samples@),
        samples@.len() >= 1,
    ensures
        dists.complete(),
        dists@.len() == samples@.len() - 1,
        forall|i: int| 0 <= i < dists@.len() ==> #[trigger] dists@[i] == row_distances(samples@, i),
        forall|i: int, j: int|
            0 <= i < samples@.len() && 0 <= j < samples@.len() ==> #[trigger] dists.entry(i, j)
                == pair_distance(samples@, i, j),
{
    let n = samples.len();
    let mut dists: TriMat<usize> = TriMat::new(n - 1);
    let mut i: usize = 0;
    while i < n - 1
        invariant
            comparable(samples@),
            n == samples@.len(),
            n >= 1,
            i <= n - 1,
            dists@.len() == n - 1,
            forall|k: int| 0 <= k < i ==> #[trigger] dists@[k] == row_distances(samples@, k),
            forall|k: int| i <= k < n - 1 ==> (#[trigger] dists@[k]).len() == 0,
        decreases n - 1 - i,
    {
        let ghost before = dists@;
        let row = dists.row_mut(i);
        fill_row(samples, i, row);
        proof {
            assert(before[i as int] =~= Seq::<usize>::empty());
            assert(dists@[i as int] =~= row_distances(samples@, i as int));
        }
        i = i + 1;
    }
    proof {
        lemma_matrix_entries(samples@, dists);
    }
    dists
}

/// A store whose rows hold the row distances of `samples` holds every
/// pairwise distance, the diagonal and the lower triangle included.
pub proof fn lemma_matrix_entries(samples: Seq<BitArrNa>, dists: TriMat<usize>)
    requires
        comparable(samples),
        samples.len() >= 1,
        dists@.len() == samples.len() - 1,
        forall|i: int| 0 <= i < dists@.len() ==> #[trigger] dists@[i] == row_distances(samples, i),
    ensures
        dists.complete(),
        forall|i: int, j: int|
            0 <= i < samples.len() && 0 <= j < samples.len() ==> #[trigger] dists.entry(i, j)
                == pair_distance(samples, i, j),
{
    assert forall|i: int, j: int| 0 <= i < samples.len() && 0 <= j < samples.len() implies #[trigger] dists.entry(
        i,
        j,
    ) == pair_distance(samples, i, j) by {
        lemma_distance_bound(samples[i]@, samples[j]@);
        lemma_distance_bound(samples[j]@, samples[i]@);
        samples[i].lemma_length_fits();
        samples[j].lemma_length_fits();
        if i == j {
            lemma_distance_to_self(samples[i]@);
        } else if i < j {
            assert(dists@[i][j - i - 1] == pair_distance(samples, i, i + 1 + (j - i - 1)) as usize);
        } else {
            assert(dists@[j][i - j - 1] == pair_distance(samples, j, j + 1 + (i - j - 1)) as usize);
            lemma_distance_symmetric(samples[i]@, samples[j]@);
        }
    }
}

/// The store does not depend on who filled which row, or when: two stores
/// whose rows each hold the row distances of the same samples are equal,
/// and so are their texts.
pub proof fn lemma_schedule_independent(
    samples: Seq<BitArrNa>,
    first: TriMat<usize>,
    second: TriMat<usize>,
)
    requires
        first@.len() == samples.len() - 1,
        second@.len() == samples.len() - 1,
        forall|i: int| 0 <= i < first@.len() ==> #[trigger] first@[i] == row_distances(samples, i),
        forall|i: int|
            0 <= i < second@.len() ==> #[trigger] second@[i] == row_distances(samples, i),
    ensures
        first@ == second@,
        first.grid() == second.grid(),
        lines_text(first.grid()) == lines_text(second.grid()),
{
    assert(first@ =~= second@);
    assert forall|i: int, j: int| first.entry(i, j) == second.entry(i, j) by {}
    assert(first.grid() =~~= second.grid());
}

} // verus!
