use binary_hamming_dist::alphabet::FormatError;
use binary_hamming_dist::bitarr::BitArrNa;
use binary_hamming_dist::ingest::{samples_from_rows, InputError, LineError};
use binary_hamming_dist::pairs::{distance_matrix, fill_row};
use binary_hamming_dist::trimat::TriMat;

fn sample(text: &str) -> BitArrNa {
    match BitArrNa::parse(text, 'X') {
        Ok(s) => s,
        Err(e) => panic!("unexpected error {:?}", e),
    }
}

fn lines(texts: &[&str]) -> Vec<String> {
    texts.iter().map(|t| t.to_string()).collect()
}

#[test]
fn three_rows_without_missing_values() {
    let samples = vec![sample("010"), sample("011"), sample("110")];
    assert_eq!(samples[0].dist(&samples[1]), 1);
    assert_eq!(samples[0].dist(&samples[2]), 1);
    assert_eq!(samples[1].dist(&samples[2]), 2);
    let dists = distance_matrix(&samples);
    assert_eq!(dists.mat, vec![vec![1, 1], vec![2]]);
    let mut out = String::new();
    dists.write_symmetric(&mut out);
    assert_eq!(out, "0,1,1\n1,0,2\n1,2,0\n");
}

#[test]
fn missing_position_is_left_out() {
    let samples = vec![sample("1X0"), sample("101")];
    assert_eq!(samples[0].dist(&samples[1]), 1);
    let dists = distance_matrix(&samples);
    let mut out = String::new();
    dists.write_symmetric(&mut out);
    assert_eq!(out, "0,1\n1,0\n");
}

#[test]
fn missing_position_hides_the_only_difference() {
    let samples = vec![sample("1X0"), sample("100")];
    assert_eq!(samples[0].dist(&samples[1]), 0);
    let unmasked = vec![sample("110"), sample("100")];
    assert_eq!(unmasked[0].dist(&unmasked[1]), 1);
    let dists = distance_matrix(&samples);
    let mut out = String::new();
    dists.write_symmetric(&mut out);
    assert_eq!(out, "0,0\n0,0\n");
}

#[test]
fn bad_character_names_line_and_position() {
    let input = lines(&["0101", "01a1", "0b01"]);
    let r = samples_from_rows(&input, 'X');
    match r {
        Err(InputError::Line { line, error: LineError::Format(e) }) => {
            assert_eq!(line, 2);
            assert_eq!(e, FormatError { position: 3, found: 'a', na_char: 'X' });
            assert_eq!(e.message(), "Char at position 3 was 'a'; expected '0', '1' or 'X'.");
        }
        _ => panic!("expected a format error"),
    }
}

#[test]
fn rows_filled_in_any_order_give_the_same_matrix() {
    let samples =
        vec![sample("0101X011"), sample("1101X001"), sample("X1010011"), sample("00000000")];
    let forward = distance_matrix(&samples);

    let mut backward: TriMat<usize> = TriMat::new(samples.len() - 1);
    for i in (0..samples.len() - 1).rev() {
        fill_row(&samples, i, backward.row_mut(i));
    }
    assert_eq!(forward.mat, backward.mat);

    let mut a = String::new();
    forward.write_symmetric(&mut a);
    let mut b = String::new();
    backward.write_symmetric(&mut b);
    assert_eq!(a, b);
    assert_eq!(a, "0,2,0,4\n2,0,1,4\n0,1,0,4\n4,4,4,0\n");
}
