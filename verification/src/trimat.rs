//! The strictly upper triangle of a symmetric matrix with a zero diagonal,
//! stored row by row.

use crate::numeric::zero;
use crate::text::{
    decimal, joined, lemma_joined_shape, lemma_lines_count, lines_text, occurrences, push_decimal,
};
use vstd::prelude::*;

verus! {

/// A symmetric matrix of `mat.len() + 1` rows and columns.
///
/// Row `i` of `mat` holds the entries `(i, i + 1)`, `(i, i + 2)`, ... in
/// that order. The diagonal is not stored, and neither is the lower
/// triangle.
#[derive(Debug)]
pub struct TriMat<T> {
    pub mat: Vec<Vec<T>>,
}

impl<T> View for TriMat<T> {
    type V = Seq<Seq<T>>;

    open spec fn view(&self) -> Seq<Seq<T>> {
        Seq::new(self.mat@.len(), |i: int| self.mat@[i]@)
    }
}

impl<T> TriMat<T> {
    /// Every row has been filled to its final length: row `i` holds one
    /// entry for each later index.
    pub open spec fn complete(&self) -> bool {
        forall|i: int| 0 <= i < self@.len() ==> (#[trigger] self@[i]).len() == self@.len() - i
    }

    /// A store of `n` rows, all empty. Row `i` has room for `n - i` entries.
    pub fn new(n: usize) -> (r: TriMat<T>)
        ensures
            r@ == Seq::new(n as nat, |i: int| Seq::<T>::empty()),
    {
        let mut mat: Vec<Vec<T>> = Vec::with_capacity(n);
        for i in 0..n
            invariant
                mat@.len() == i,
                forall|k: int| 0 <= k < i ==> (#[trigger] mat@[k])@.len() == 0,
        {
            mat.push(Vec::with_capacity(n - i));
        }
        let r = TriMat { mat };
        proof {
            assert forall|i: int| 0 <= i < n implies #[trigger] r@[i] == Seq::<T>::empty() by {
                assert(r.mat@[i]@ =~= Seq::<T>::empty());
            }
            assert(r@ =~= Seq::new(n as nat, |i: int| Seq::<T>::empty()));
        }
        r
    }

    /// The number of stored rows, one less than the matrix has.
    pub fn rows(&self) -> (n: usize)
        ensures
            n == self@.len(),
    {
        self.mat.len()
    }

    /// Row `i` of the store, to append its entries to.
    pub fn row_mut(&mut self, i: usize) -> (r: &mut Vec<T>)
        requires
            i < old(self)@.len(),
        ensures
            r@ == old(self)@[i as int],
            final(self)@ == old(self)@.update(i as int, final(r)@),
    {
        &mut self.mat[i]
    }
}

impl<T> vstd::std_specs::core::IndexSpecImpl<usize> for TriMat<T> {
    /// A row can be read where it exists.
    open spec fn index_req(&self, index: &usize) -> bool {
        *index < self@.len()
    }
}

impl<T> std::ops::Index<usize> for TriMat<T> {
    type Output = Vec<T>;

    /// Row `i` of the store.
    fn index(&self, i: usize) -> (r: &Vec<T>)
        ensures
            r@ == self@[i as int],
    {
        &self.mat[i]
    }
}

impl TriMat<usize> {
    /// The matrix entry at row `i` and column `j`: zero on the diagonal,
    /// elsewhere the stored entry of the smaller index's row.
    pub open spec fn entry(&self, i: int, j: int) -> nat {
        if i == j {
            0
        } else if i < j {
            self@[i][j - i - 1] as nat
        } else {
            self@[j][i - j - 1] as nat
        }
    }

    /// The whole matrix, row by row.
    pub open spec fn grid(&self) -> Seq<Seq<nat>> {
        Seq::new(
            self@.len() + 1,
            |i: int| Seq::new(self@.len() + 1, |j: int| self.entry(i, j)),
        )
    }

    /// The matrix is symmetric and its diagonal is zero, whatever the rows
    /// hold.
    pub proof fn lemma_symmetric(&self, i: int, j: int)
        ensures
            self.entry(i, j) == self.entry(j, i),
            self.entry(i, i) == 0,
    {
    }

    /// What was stored is read back: where row `i` holds `d(i, i + 1)`,
    /// `d(i, i + 2)`, ... in that order, the matrix holds `d(i, j)` at
    /// `(i, j)` and at `(j, i)` for all `i < j`.
    pub proof fn lemma_round_trip(&self, d: spec_fn(int, int) -> usize, i: int, j: int)
        requires
            self.complete(),
            forall|r: int, k: int|
                0 <= r < self@.len() && 0 <= k < self@.len() - r ==> #[trigger] self@[r][k] == d(
                    r,
                    r + 1 + k,
                ),
            0 <= i < j <= self@.len(),
        ensures
            self.entry(i, j) == d(i, j),
            self.entry(j, i) == d(i, j),
    {
        assert(self@[i][j - i - 1] == d(i, i + 1 + (j - i - 1)));
    }

    /// The matrix entry at row `i` and column `j`.
    pub fn get(&self, i: usize, j: usize) -> (d: usize)
        requires
            self.complete(),
            i <= self@.len(),
            j <= self@.len(),
        ensures
            d == self.entry(i as int, j as int),
            d == self.entry(j as int, i as int),
            i == j ==> d == 0,
    {
        if i == j {
            zero()
        } else {
            let smaller = if i < j {
                i
            } else {
                j
            };
            let larger = if i < j {
                j
            } else {
                i
            };
            assert(self@[smaller as int].len() == self@.len() - smaller);
            self[smaller][larger - smaller - 1]
        }
    }

    /// Appends row `i` of the matrix to `sink`: its entries as decimal
    /// numerals with commas between them.
    pub fn write_row(&self, i: usize, sink: &mut String)
        requires
            self.complete(),
            i <= self@.len(),
        ensures
            final(sink)@ == old(sink)@ + joined(self.grid()[i as int]),
    {
        let n = self.mat.len();
        let ghost start = sink@;
        let ghost fields = self.grid()[i as int];
        let mut j: usize = 0;
        proof {
            assert(fields.take(0) =~= Seq::<nat>::empty());
            assert(sink@ =~= start + joined(fields.take(0)));
        }
        while j <= n
            invariant
                self.complete(),
                n == self@.len(),
                i <= n,
                j <= n + 1,
                fields == self.grid()[i as int],
                start == old(sink)@,
                sink@ == start + joined(fields.take(j as int)),
            decreases n + 1 - j,
        {
            let ghost before = sink@;
            if j > 0 {
                sink.push(',');
            }
            push_decimal(sink, self.get(i, j));
            proof {
                let head = fields.take(j as int);
                let next = fields.take(j + 1);
                assert(next.drop_last() =~= head);
                assert(next.last() == self.entry(i as int, j as int));
                if j > 0 {
                    assert(sink@ =~= start + joined(next));
                } else {
                    assert(sink@ =~= start + joined(next));
                }
            }
            if j == n {
                proof {
                    assert(fields.take(n + 1) =~= fields);
                }
                return ;
            }
            j = j + 1;
        }
        proof {
            assert(fields.take(n + 1) =~= fields);
        }
    }

    /// Appends the whole symmetric matrix to `sink` as text: one line for
    /// each row, the diagonal and the lower triangle included, each line
    /// ended by a line feed.
    pub fn write_symmetric(&self, sink: &mut String)
        requires
            self.complete(),
        ensures
            final(sink)@ == old(sink)@ + lines_text(self.grid()),
    {
        let n = self.mat.len();
        let ghost start = sink@;
        let ghost grid = self.grid();
        let mut i: usize = 0;
        proof {
            assert(grid.take(0) =~= Seq::<Seq<nat>>::empty());
            assert(sink@ =~= start + lines_text(grid.take(0)));
        }
        while i <= n
            invariant
                self.complete(),
                n == self@.len(),
                i <= n + 1,
                grid == self.grid(),
                start == old(sink)@,
                sink@ == start + lines_text(grid.take(i as int)),
            decreases n + 1 - i,
        {
            self.write_row(i, sink);
            sink.push('\n');
            proof {
                let next = grid.take(i + 1);
                assert(next.drop_last() =~= grid.take(i as int));
                assert(next.last() == grid[i as int]);
                assert(sink@ =~= start + lines_text(next));
            }
            if i == n {
                proof {
                    assert(grid.take(n + 1) =~= grid);
                }
                return ;
            }
            i = i + 1;
        }
        proof {
            assert(grid.take(n + 1) =~= grid);
        }
    }

    /// The text of a store of `n` rows has `n + 1` lines, and each line has
    /// `n + 1` fields: `n` commas between numerals, and no line feed inside.
    pub proof fn lemma_text_shape(&self)
        ensures
            occurrences(lines_text(self.grid()), '\n') == self@.len() + 1,
            forall|i: int|
                0 <= i <= self@.len() ==> occurrences(
                    #[trigger] joined(self.grid()[i]),
                    ',',
                ) == self@.len() && occurrences(joined(self.grid()[i]), '\n') == 0,
    {
        lemma_lines_count(self.grid());
        assert forall|i: int| 0 <= i <= self@.len() implies occurrences(
            #[trigger] joined(self.grid()[i]),
            ',',
        ) == self@.len() && occurrences(joined(self.grid()[i]), '\n') == 0 by {
            lemma_joined_shape(self.grid()[i]);
        }
    }
}

} // verus!
