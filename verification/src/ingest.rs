//! Turning lines of text into samples, for input that holds one sample per
//! line and for input that holds one sample per column.

use crate::alphabet::{
    all_accepted, check_text, observation, observations, read_symbol, FormatError,
};
use crate::bitarr::BitArrNa;
use crate::packed::max_bits;
use std::str::Chars;
use vstd::prelude::*;
use vstd::std_specs::iter::IteratorSpec;

verus! {

/// What is wrong with one line of input.
#[derive(Debug, Clone, Copy, PartialEq, Eq)]
pub enum LineError {
    /// The line holds a character that is not accepted.
    Format(FormatError),
    /// The line has `found` characters where `expected` were due.
    Shape { expected: usize, found: usize },
}

/// What is wrong with the input as a whole.
#[derive(Debug, Clone, Copy, PartialEq, Eq)]
pub enum InputError {
    /// There is no line at all.
    Empty,
    /// Line `line`, counted from one, is the first that cannot be used.
    Line { line: usize, error: LineError },
}

/// A line of column-oriented input fits when it has one accepted character
/// for each of the `width` samples.
pub open spec fn line_fits(text: Seq<char>, width: nat, na_char: char) -> bool {
    text.len() == width && all_accepted(text, na_char)
}

impl LineError {
    /// Whether this error says what keeps `text` from fitting: a wrong
    /// length first, else its first character that is not accepted.
    pub open spec fn reports(&self, text: Seq<char>, width: nat, na_char: char) -> bool {
        match *self {
            LineError::Shape { expected, found } => {
                &&& text.len() != width
                &&& expected == width
                &&& found == text.len()
            },
            LineError::Format(e) => text.len() == width && e.reports(text, na_char),
        }
    }
}

/// The largest number of positions that a sample can have.
pub fn max_positions() -> (n: usize)
    ensures
        n == max_bits(),
{
    usize::MAX / 8
}

/// Checks one line of column-oriented input against the number of
/// samples.
pub fn check_column_line(line: &str, width: usize, na_char: char) -> (r: Result<(), LineError>)
    ensures
        match r {
            Ok(()) => line_fits(line@, width as nat, na_char),
            Err(e) => e.reports(line@, width as nat, na_char),
        },
{
    let found = line.unicode_len();
    if found != width {
        return Err(LineError::Shape { expected: width, found });
    }
    match check_text(line, na_char) {
        Some(e) => Err(LineError::Format(e)),
        None => Ok(()),
    }
}

/// `count` samples of `length` positions each, all observed and all zero.
pub fn blank_samples(count: usize, length: usize) -> (samples: Vec<BitArrNa>)
    requires
        length <= max_bits(),
    ensures
        samples@.len() == count,
        forall|j: int|
            0 <= j < count ==> (#[trigger] samples@[j]).wf() && samples@[j]@ == Seq::new(
                length as nat,
                |i: int| Some(false),
            ),
{
    let mut samples: Vec<BitArrNa> = Vec::with_capacity(count);
    for k in 0..count
        invariant
            length <= max_bits(),
            samples@.len() == k,
            forall|j: int|
                0 <= j < k ==> (#[trigger] samples@[j]).wf() && samples@[j]@ == Seq::new(
                    length as nat,
                    |i: int| Some(false),
                ),
    {
        samples.push(BitArrNa::new(length));
    }
    samples
}

/// Every sample is well formed and has more than `position` positions.
pub open spec fn all_reach(samples: Seq<BitArrNa>, position: int) -> bool {
    forall|j: int|
        0 <= j < samples.len() ==> (#[trigger] samples[j]).wf() && position < samples[j]@.len()
}

/// Every sample is well formed and can take one more position.
pub open spec fn all_growable(samples: Seq<BitArrNa>) -> bool {
    forall|j: int|
        0 <= j < samples.len() ==> (#[trigger] samples[j]).wf() && samples[j]@.len() < max_bits()
}

/// Column-oriented input, one line: character `j` of `line` is what sample
/// `j` holds at `position`. A line that does not fit changes nothing.
pub fn set_column_line(
    samples: &mut Vec<BitArrNa>,
    position: usize,
    line: &str,
    na_char: char,
) -> (r: Result<(), LineError>)
    requires
        all_reach(old(samples)@, position as int),
    ensures
        final(samples)@.len() == old(samples)@.len(),
        all_reach(final(samples)@, position as int),
        match r {
            Ok(()) => {
                &&& line_fits(line@, old(samples)@.len(), na_char)
                &&& forall|j: int|
                    0 <= j < old(samples)@.len() ==> (#[trigger] final(samples)@[j])@ == old(
                        samples,
                    )@[j]@.update(position as int, observation(line@[j]))
            },
            Err(e) => {
                &&& e.reports(line@, old(samples)@.len(), na_char)
                &&& final(samples)@ == old(samples)@
            },
        },
{
    let width = samples.len();
    match check_column_line(line, width, na_char) {
        Err(e) => {
            return Err(e);
        },
        Ok(()) => {},
    }
    let mut chars = line.chars();
    let mut j: usize = 0;
    loop
        invariant
            width == old(samples)@.len(),
            samples@.len() == width,
            line_fits(line@, width as nat, na_char),
            j <= width,
            chars.remaining() == line@.skip(j as int),
            all_reach(old(samples)@, position as int),
            all_reach(samples@, position as int),
            forall|k: int|
                0 <= k < j ==> (#[trigger] samples@[k])@ == old(samples)@[k]@.update(
                    position as int,
                    observation(line@[k]),
                ),
            forall|k: int| j <= k < width ==> #[trigger] samples@[k] == old(samples)@[k],
        decreases width - j,
    {
        match chars.next() {
            None => {
                proof {
                    assert(line@.skip(j as int).len() == 0);
                }
                return Ok(());
            },
            Some(c) => {
                proof {
                    assert(c == line@[j as int]);
                    assert(line@.skip(j as int).drop_first() =~= line@.skip(j + 1));
                }
                let ghost before = samples@;
                samples[j].assign(position, read_symbol(c));
                proof {
                    assert forall|k: int| 0 <= k < width implies (#[trigger] samples@[k]).wf()
                        && position < samples@[k]@.len() by {
                        if k != j {
                            assert(samples@[k] == before[k]);
                        }
                    }
                }
                j = j + 1;
            },
        }
    }
}

/// Column-oriented input read in one pass, one line: every sample grows by
/// one position, and character `j` of `line` is what sample `j` holds
/// there. A line that does not fit changes nothing.
pub fn push_column_line(samples: &mut Vec<BitArrNa>, line: &str, na_char: char) -> (r: Result<
    (),
    LineError,
>)
    requires
        all_growable(old(samples)@),
    ensures
        final(samples)@.len() == old(samples)@.len(),
        forall|j: int| 0 <= j < final(samples)@.len() ==> (#[trigger] final(samples)@[j]).wf(),
        match r {
            Ok(()) => {
                &&& line_fits(line@, old(samples)@.len(), na_char)
                &&& forall|j: int|
                    0 <= j < old(samples)@.len() ==> (#[trigger] final(samples)@[j])@ == old(
                        samples,
                    )@[j]@.push(observation(line@[j]))
            },
            Err(e) => {
                &&& e.reports(line@, old(samples)@.len(), na_char)
                &&& final(samples)@ == old(samples)@
            },
        },
{
    let width = samples.len();
    match check_column_line(line, width, na_char) {
        Err(e) => {
            return Err(e);
        },
        Ok(()) => {},
    }
    let mut chars = line.chars();
    let mut j: usize = 0;
    loop
        invariant
            width == old(samples)@.len(),
            samples@.len() == width,
            line_fits(line@, width as nat, na_char),
            j <= width,
            chars.remaining() == line@.skip(j as int),
            all_growable(old(samples)@),
            forall|k: int| 0 <= k < width ==> (#[trigger] samples@[k]).wf(),
            forall|k: int|
                0 <= k < j ==> (#[trigger] samples@[k])@ == old(samples)@[k]@.push(
                    observation(line@[k]),
                ),
            forall|k: int| j <= k < width ==> #[trigger] samples@[k] == old(samples)@[k],
        decreases width - j,
    {
        match chars.next() {
            None => {
                proof {
                    assert(line@.skip(j as int).len() == 0);
                }
                return Ok(());
            },
            Some(c) => {
                proof {
                    assert(c == line@[j as int]);
                    assert(line@.skip(j as int).drop_first() =~= line@.skip(j + 1));
                }
                let ghost before = samples@;
                samples[j].push(read_symbol(c));
                proof {
                    assert forall|k: int| 0 <= k < width implies (#[trigger] samples@[k]).wf() by {
                        if k != j {
                            assert(samples@[k] == before[k]);
                        }
                    }
                }
                j = j + 1;
            },
        }
    }
}

/// Row-oriented input: line `i` is the text of sample `i`. The first line
/// that holds a character that is not accepted is reported, counted from
/// one.
pub fn samples_from_rows(lines: &Vec<String>, na_char: char) -> (r: Result<
    Vec<BitArrNa>,
    InputError,
>)
    requires
        forall|i: int| 0 <= i < lines@.len() ==> (#[trigger] lines@[i])@.len() <= max_bits(),
    ensures
        match r {
            Ok(samples) => {
                &&& samples@.len() == lines@.len()
                &&& forall|i: int|
                    0 <= i < lines@.len() ==> {
                        &&& all_accepted((#[trigger] lines@[i])@, na_char)
                        &&& samples@[i].wf()
                        &&& samples@[i]@ == observations(lines@[i]@)
                    }
            },
            Err(InputError::Line { line, error: LineError::Format(e) }) => {
                &&& 1 <= line <= lines@.len()
                &&& forall|i: int|
                    0 <= i < line - 1 ==> all_accepted((#[trigger] lines@[i])@, na_char)
                &&& e.reports(lines@[line - 1]@, na_char)
            },
            Err(_) => false,
        },
{
    let n = lines.len();
    let mut samples: Vec<BitArrNa> = Vec::with_capacity(n);
    let mut i: usize = 0;
    while i < n
        invariant
            n == lines@.len(),
            i <= n,
            samples@.len() == i,
            forall|k: int| 0 <= k < lines@.len() ==> (#[trigger] lines@[k])@.len() <= max_bits(),
            forall|k: int|
                0 <= k < i ==> {
                    &&& all_accepted((#[trigger] lines@[k])@, na_char)
                    &&& samples@[k].wf()
                    &&& samples@[k]@ == observations(lines@[k]@)
                },
        decreases n - i,
    {
        match BitArrNa::parse(lines[i].as_str(), na_char) {
            Ok(sample) => {
                samples.push(sample);
            },
            Err(e) => {
                return Err(InputError::Line { line: i + 1, error: LineError::Format(e) });
            },
        }
        i = i + 1;
    }
    Ok(samples)
}

/// Sample `j` of column-oriented input: what character `j` of each line
/// stands for, line after line.
pub open spec fn column(lines: Seq<String>, j: int) -> Seq<Option<bool>> {
    Seq::new(lines.len(), |i: int| observation(lines[i]@[j]))
}

/// Column-oriented input: character `j` of line `i` is what sample `j`
/// holds at position `i`. The first line sets the number of samples; the
/// first line that does not fit it is reported, counted from one.
pub fn samples_from_columns(lines: &Vec<String>, na_char: char) -> (r: Result<
    Vec<BitArrNa>,
    InputError,
>)
    requires
        lines@.len() <= max_bits(),
    ensures
        match r {
            Ok(samples) => {
                &&& lines@.len() >= 1
                &&& samples@.len() == lines@[0]@.len()
                &&& forall|i: int|
                    0 <= i < lines@.len() ==> line_fits(
                        (#[trigger] lines@[i])@,
                        lines@[0]@.len(),
                        na_char,
                    )
                &&& forall|j: int|
                    0 <= j < samples@.len() ==> (#[trigger] samples@[j]).wf() && samples@[j]@
                        == column(lines@, j)
            },
            Err(InputError::Empty) => lines@.len() == 0,
            Err(InputError::Line { line, error }) => {
                &&& 1 <= line <= lines@.len()
                &&& forall|i: int|
                    0 <= i < line - 1 ==> line_fits(
                        (#[trigger] lines@[i])@,
                        lines@[0]@.len(),
                        na_char,
                    )
                &&& error.reports(lines@[line - 1]@, lines@[0]@.len(), na_char)
            },
        },
{
    let n = lines.len();
    if n == 0 {
        return Err(InputError::Empty);
    }
    let width = lines[0].as_str().unicode_len();
    let mut samples = blank_samples(width, n);
    let mut i: usize = 0;
    while i < n
        invariant
            n == lines@.len(),
            n >= 1,
            i <= n,
            width == lines@[0]@.len(),
            samples@.len() == width,
            forall|k: int|
                0 <= k < i ==> line_fits((#[trigger] lines@[k])@, width as nat, na_char),
            forall|j: int|
                0 <= j < width ==> {
                    &&& (#[trigger] samples@[j]).wf()
                    &&& samples@[j]@ == Seq::new(
                        n as nat,
                        |p: int|
                            if p < i {
                                observation(lines@[p]@[j])
                            } else {
                                Some(false)
                            },
                    )
                },
        decreases n - i,
    {
        let ghost before = samples@;
        match set_column_line(&mut samples, i, lines[i].as_str(), na_char) {
            Err(error) => {
                return Err(InputError::Line { line: i + 1, error });
            },
            Ok(()) => {},
        }
        proof {
            assert forall|j: int| 0 <= j < width implies (#[trigger] samples@[j])@ == Seq::new(
                n as nat,
                |p: int|
                    if p < i + 1 {
                        observation(lines@[p]@[j])
                    } else {
                        Some(false)
                    },
            ) by {
                assert(samples@[j]@ == before[j]@.update(
                    i as int,
                    observation(lines@[i as int]@[j]),
                ));
                assert(samples@[j]@ =~= Seq::new(
                    n as nat,
                    |p: int|
                        if p < i + 1 {
                            observation(lines@[p]@[j])
                        } else {
                            Some(false)
                        },
                ));
            }
        }
        i = i + 1;
    }
    proof {
        assert forall|j: int| 0 <= j < width implies (#[trigger] samples@[j])@ == column(
            lines@,
            j,
        ) by {
            assert(samples@[j]@ =~= column(lines@, j));
        }
    }
    Ok(samples)
}

} // verus!
