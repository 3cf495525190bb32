//! Pairwise masked Hamming distances between bit strings with missing
//! values.
//!
//! A sample ([`bitarr::BitArrNa`]) is a bit string in which any position
//! may be marked as missing. The distance between two samples
//! ([`metric::masked_distance`]) counts the positions that both observed
//! and at which they differ. The distances of all pairs are kept in a
//! triangular store ([`trimat::TriMat`]), filled row by row
//! ([`pairs::fill_row`]) and written out as a full symmetric matrix.

pub mod alphabet;
pub mod bitarr;
pub mod ingest;
pub mod metric;
pub mod numeric;
pub mod packed;
pub mod pairs;
pub mod text;
pub mod trimat;
pub mod words;
