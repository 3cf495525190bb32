use binary_hamming_dist::alphabet::{check_text, read_symbol, FormatError};
use binary_hamming_dist::bitarr::BitArrNa;
use binary_hamming_dist::ingest::{
    blank_samples, check_column_line, max_positions, push_column_line, samples_from_columns,
    samples_from_rows, set_column_line, InputError, LineError,
};
use binary_hamming_dist::pairs::distance_matrix;

fn text_lines(texts: &[&str]) -> Vec<String> {
    texts.iter().map(|t| t.to_string()).collect()
}

fn must(r: Result<BitArrNa, FormatError>) -> BitArrNa {
    match r {
        Ok(s) => s,
        Err(e) => panic!("unexpected error {:?}", e),
    }
}

#[test]
fn parse_reads_zero_one_and_marker() {
    let a = must(BitArrNa::parse("01X10", 'X'));
    assert_eq!(a.len(), 5);
    let zeros = BitArrNa::new(5);
    assert_eq!(a.dist(&zeros), 2);
    let ones = must(BitArrNa::parse("11111", 'X'));
    assert_eq!(a.dist(&ones), 2);
}

#[test]
fn parse_of_empty_text_is_the_empty_sample() {
    let a = must(BitArrNa::parse("", 'X'));
    assert_eq!(a.len(), 0);
}

#[test]
fn parse_reports_first_bad_character() {
    match BitArrNa::parse("01?1!", 'X') {
        Err(e) => assert_eq!(e, FormatError { position: 3, found: '?', na_char: 'X' }),
        Ok(_) => panic!("expected an error"),
    }
    match BitArrNa::parse("x", 'X') {
        Err(e) => assert_eq!(e, FormatError { position: 1, found: 'x', na_char: 'X' }),
        Ok(_) => panic!("expected an error"),
    }
}

#[test]
fn marker_is_configurable_and_case_sensitive() {
    let a = must(BitArrNa::parse("0N1", 'N'));
    let b = must(BitArrNa::parse("111", 'N'));
    assert_eq!(a.dist(&b), 1);
    assert!(BitArrNa::parse("0n1", 'N').is_err());
    assert!(BitArrNa::parse("0X1", 'N').is_err());
}

#[test]
fn length_counts_characters_not_bytes() {
    let a = must(BitArrNa::parse("0é1é", 'é'));
    assert_eq!(a.len(), 4);
    let b = must(BitArrNa::parse("1111", 'é'));
    assert_eq!(a.dist(&b), 1);
}

#[test]
fn from_string_gives_the_error_in_words() {
    match BitArrNa::from_string("0102", 'X') {
        Err(m) => assert_eq!(m, "Char at position 4 was '2'; expected '0', '1' or 'X'."),
        Ok(_) => panic!("expected an error"),
    }
    match BitArrNa::from_string("0000000000001000000y", '-') {
        Err(m) => assert_eq!(m, "Char at position 20 was 'y'; expected '0', '1' or '-'."),
        Ok(_) => panic!("expected an error"),
    }
    match BitArrNa::from_string("01X", 'X') {
        Ok(a) => assert_eq!(a.len(), 3),
        Err(m) => panic!("unexpected error {}", m),
    }
}

#[test]
fn check_text_finds_what_parse_reports() {
    assert_eq!(check_text("0101XX", 'X'), None);
    assert_eq!(check_text("", 'X'), None);
    assert_eq!(
        check_text("0101 X", 'X'),
        Some(FormatError { position: 5, found: ' ', na_char: 'X' })
    );
}

#[test]
fn read_symbol_maps_characters() {
    assert_eq!(read_symbol('0'), Some(false));
    assert_eq!(read_symbol('1'), Some(true));
    assert_eq!(read_symbol('X'), None);
}

#[test]
fn rows_become_samples_in_order() {
    let input = text_lines(&["010", "011", "110"]);
    let samples = match samples_from_rows(&input, 'X') {
        Ok(s) => s,
        Err(e) => panic!("unexpected error {:?}", e),
    };
    assert_eq!(samples.len(), 3);
    let dists = distance_matrix(&samples);
    assert_eq!(dists.mat, vec![vec![1, 1], vec![2]]);
}

#[test]
fn rows_of_no_lines_are_no_samples() {
    let input: Vec<String> = Vec::new();
    match samples_from_rows(&input, 'X') {
        Ok(s) => assert_eq!(s.len(), 0),
        Err(e) => panic!("unexpected error {:?}", e),
    }
}

#[test]
fn rows_report_the_first_bad_line() {
    let input = text_lines(&["01", "0?", "!!"]);
    match samples_from_rows(&input, 'X') {
        Err(e) => assert_eq!(
            e,
            InputError::Line {
                line: 2,
                error: LineError::Format(FormatError { position: 2, found: '?', na_char: 'X' }),
            }
        ),
        Ok(_) => panic!("expected an error"),
    }
}

#[test]
fn columns_are_the_transposed_rows() {
    // samples "0101X", "01X10" written as columns
    let input = text_lines(&["00", "11", "0X", "11", "X0"]);
    let samples = match samples_from_columns(&input, 'X') {
        Ok(s) => s,
        Err(e) => panic!("unexpected error {:?}", e),
    };
    assert_eq!(samples.len(), 2);
    assert_eq!(samples[0].len(), 5);
    assert_eq!(samples[1].len(), 5);
    let first = must(BitArrNa::parse("0101X", 'X'));
    let second = must(BitArrNa::parse("01X10", 'X'));
    let ones = must(BitArrNa::parse("11111", 'X'));
    let zeros = BitArrNa::new(5);
    assert_eq!(samples[0].dist(&ones), first.dist(&ones));
    assert_eq!(samples[0].dist(&zeros), first.dist(&zeros));
    assert_eq!(samples[1].dist(&ones), second.dist(&ones));
    assert_eq!(samples[1].dist(&zeros), second.dist(&zeros));
    assert_eq!(samples[0].dist(&samples[1]), 0);
    assert_eq!(samples[0].dist(&ones), 2);
    assert_eq!(samples[1].dist(&ones), 2);
}

#[test]
fn columns_of_no_lines_are_an_error() {
    let input: Vec<String> = Vec::new();
    match samples_from_columns(&input, 'X') {
        Err(e) => assert_eq!(e, InputError::Empty),
        Ok(_) => panic!("expected an error"),
    }
}

#[test]
fn columns_report_a_line_of_another_length() {
    let input = text_lines(&["010", "01", "0?0"]);
    match samples_from_columns(&input, 'X') {
        Err(e) => assert_eq!(
            e,
            InputError::Line { line: 2, error: LineError::Shape { expected: 3, found: 2 } }
        ),
        Ok(_) => panic!("expected an error"),
    }
    let longer = text_lines(&["01", "011"]);
    match samples_from_columns(&longer, 'X') {
        Err(e) => assert_eq!(
            e,
            InputError::Line { line: 2, error: LineError::Shape { expected: 2, found: 3 } }
        ),
        Ok(_) => panic!("expected an error"),
    }
}

#[test]
fn columns_report_a_bad_character() {
    let input = text_lines(&["010", "0X1", "0?0"]);
    match samples_from_columns(&input, 'X') {
        Err(e) => assert_eq!(
            e,
            InputError::Line {
                line: 3,
                error: LineError::Format(FormatError { position: 2, found: '?', na_char: 'X' }),
            }
        ),
        Ok(_) => panic!("expected an error"),
    }
}

#[test]
fn check_column_line_tells_shape_from_format() {
    assert_eq!(check_column_line("01X", 3, 'X'), Ok(()));
    assert_eq!(
        check_column_line("01X", 4, 'X'),
        Err(LineError::Shape { expected: 4, found: 3 })
    );
    assert_eq!(
        check_column_line("0?X", 4, 'X'),
        Err(LineError::Shape { expected: 4, found: 3 })
    );
    assert_eq!(
        check_column_line("0?X", 3, 'X'),
        Err(LineError::Format(FormatError { position: 2, found: '?', na_char: 'X' }))
    );
}

#[test]
fn blank_samples_are_zero_and_observed() {
    let samples = blank_samples(3, 66);
    assert_eq!(samples.len(), 3);
    let ones = must(BitArrNa::parse(&"1".repeat(66), 'X'));
    for s in &samples {
        assert_eq!(s.len(), 66);
        assert_eq!(s.dist(&ones), 66);
    }
    assert_eq!(blank_samples(0, 5).len(), 0);
}

#[test]
fn set_column_line_fills_one_position() {
    let mut samples = blank_samples(3, 2);
    assert_eq!(set_column_line(&mut samples, 0, "01X", 'X'), Ok(()));
    assert_eq!(set_column_line(&mut samples, 1, "1X1", 'X'), Ok(()));
    // samples are now "01", "1X", "X1"
    let ones = must(BitArrNa::parse("11", 'X'));
    assert_eq!(samples[0].dist(&ones), 1);
    assert_eq!(samples[1].dist(&ones), 0);
    assert_eq!(samples[2].dist(&ones), 0);
    let zeros = BitArrNa::new(2);
    assert_eq!(samples[0].dist(&zeros), 1);
    assert_eq!(samples[1].dist(&zeros), 1);
    assert_eq!(samples[2].dist(&zeros), 1);
}

#[test]
fn set_column_line_leaves_samples_alone_on_error() {
    let mut samples = blank_samples(3, 1);
    assert_eq!(
        set_column_line(&mut samples, 0, "11?", 'X'),
        Err(LineError::Format(FormatError { position: 3, found: '?', na_char: 'X' }))
    );
    assert_eq!(
        set_column_line(&mut samples, 0, "11", 'X'),
        Err(LineError::Shape { expected: 3, found: 2 })
    );
    let zeros = BitArrNa::new(1);
    for s in &samples {
        assert_eq!(s.dist(&zeros), 0);
    }
}

#[test]
fn one_pass_and_two_pass_column_reading_agree() {
    let input = text_lines(&["01X", "110", "X01", "000", "111"]);
    let two_pass = match samples_from_columns(&input, 'X') {
        Ok(s) => s,
        Err(e) => panic!("unexpected error {:?}", e),
    };
    let mut one_pass = blank_samples(3, 0);
    for line in &input {
        assert_eq!(push_column_line(&mut one_pass, line, 'X'), Ok(()));
    }
    assert_eq!(one_pass.len(), 3);
    for s in &one_pass {
        assert_eq!(s.len(), 5);
    }
    assert_eq!(distance_matrix(&one_pass).mat, distance_matrix(&two_pass).mat);
    assert_eq!(distance_matrix(&one_pass).mat, vec![vec![1, 1], vec![2]]);
    let ones = must(BitArrNa::parse("11111", 'X'));
    for j in 0..3 {
        assert_eq!(one_pass[j].dist(&ones), two_pass[j].dist(&ones));
        assert_eq!(one_pass[j].dist(&two_pass[j]), 0);
    }
}

#[test]
fn push_column_line_leaves_samples_alone_on_error() {
    let mut samples = blank_samples(2, 0);
    assert_eq!(push_column_line(&mut samples, "01", 'X'), Ok(()));
    assert_eq!(
        push_column_line(&mut samples, "0", 'X'),
        Err(LineError::Shape { expected: 2, found: 1 })
    );
    assert_eq!(
        push_column_line(&mut samples, "0a", 'X'),
        Err(LineError::Format(FormatError { position: 2, found: 'a', na_char: 'X' }))
    );
    assert_eq!(samples[0].len(), 1);
    assert_eq!(samples[1].len(), 1);
}

#[test]
fn max_positions_is_an_eighth_of_the_address_space() {
    assert_eq!(max_positions(), usize::MAX / 8);
}
