use binary_hamming_dist::bitarr::BitArrNa;

fn parsed(text: &str, na: char) -> BitArrNa {
    match BitArrNa::parse(text, na) {
        Ok(s) => s,
        Err(e) => panic!("unexpected error {:?}", e),
    }
}

fn naive(a: &str, b: &str, na: char) -> usize {
    a.chars().zip(b.chars()).filter(|(x, y)| *x != na && *y != na && x != y).count()
}

/// A text of `len` characters made from a small generator, so that the
/// tests cover many word boundaries without listing every character.
fn pattern(len: usize, seed: u64, na: char) -> String {
    let mut state = seed;
    let mut out = String::new();
    for _ in 0..len {
        state = state.wrapping_mul(6364136223846793005).wrapping_add(1442695040888963407);
        let pick = (state >> 33) % 5;
        out.push(if pick == 0 {
            na
        } else if pick < 3 {
            '0'
        } else {
            '1'
        });
    }
    out
}

#[test]
fn distance_counts_differing_observed_positions() {
    let a = parsed("0011X", 'X');
    let b = parsed("0101X", 'X');
    assert_eq!(a.dist(&b), 2);
    let c = parsed("X0110", 'X');
    assert_eq!(a.dist(&c), 0);
    assert_eq!(b.dist(&c), 2);
}

#[test]
fn distance_is_symmetric_and_zero_to_self() {
    for len in [0usize, 1, 5, 63, 64, 65, 127, 128, 129, 200] {
        let ta = pattern(len, 1, 'X');
        let tb = pattern(len, 2, 'X');
        let a = parsed(&ta, 'X');
        let b = parsed(&tb, 'X');
        assert_eq!(a.dist(&b), b.dist(&a));
        assert_eq!(a.dist(&a), 0);
        assert_eq!(b.dist(&b), 0);
    }
}

#[test]
fn distance_agrees_with_counting_by_hand() {
    for len in [0usize, 1, 2, 31, 32, 33, 63, 64, 65, 100, 127, 128, 129, 191, 192, 193, 1000] {
        for seed in 0..4u64 {
            let ta = pattern(len, seed, 'X');
            let tb = pattern(len, seed + 100, 'X');
            let a = parsed(&ta, 'X');
            let b = parsed(&tb, 'X');
            assert_eq!(a.len(), len);
            assert_eq!(a.dist(&b), naive(&ta, &tb, 'X'), "len {} seed {}", len, seed);
        }
    }
}

#[test]
fn all_ones_against_all_zeros_is_the_length() {
    for len in [1usize, 7, 64, 65, 130] {
        let ones = parsed(&"1".repeat(len), 'X');
        let zeros = BitArrNa::new(len);
        assert_eq!(ones.dist(&zeros), len);
        assert_eq!(zeros.dist(&ones), len);
    }
}

#[test]
fn all_missing_is_at_distance_zero_from_anything() {
    for len in [1usize, 64, 70] {
        let missing = parsed(&"X".repeat(len), 'X');
        let ones = parsed(&"1".repeat(len), 'X');
        let zeros = parsed(&"0".repeat(len), 'X');
        assert_eq!(missing.dist(&ones), 0);
        assert_eq!(missing.dist(&zeros), 0);
        assert_eq!(missing.dist(&missing), 0);
    }
}

#[test]
fn triangle_inequality_without_missing_values() {
    for len in [3usize, 64, 90] {
        for seed in 0..5u64 {
            let a = parsed(&pattern(len, seed, '0'), 'X');
            let b = parsed(&pattern(len, seed + 10, '0'), 'X');
            let c = parsed(&pattern(len, seed + 20, '0'), 'X');
            assert!(a.dist(&c) <= a.dist(&b) + b.dist(&c));
        }
    }
}

#[test]
fn triangle_inequality_can_fail_with_missing_values() {
    let a = parsed("0", 'X');
    let b = parsed("X", 'X');
    let c = parsed("1", 'X');
    assert_eq!(a.dist(&c), 1);
    assert_eq!(a.dist(&b) + b.dist(&c), 0);
}

#[test]
fn masking_a_position_never_increases_the_distance() {
    let ta = pattern(150, 7, 'X');
    let tb = pattern(150, 8, 'X');
    let b = parsed(&tb, 'X');
    let base = parsed(&ta, 'X').dist(&b);
    for i in 0..150 {
        let mut a = parsed(&ta, 'X');
        a.assign(i, None);
        let d = a.dist(&b);
        assert!(d <= base);
        assert_eq!(b.dist(&a), d);
        let mut chars: Vec<char> = ta.chars().collect();
        chars[i] = 'X';
        let masked: String = chars.into_iter().collect();
        assert_eq!(d, naive(&masked, &tb, 'X'));
    }
}

#[test]
fn assign_writes_values_and_missing_marks() {
    let mut a = BitArrNa::new(70);
    let zeros = BitArrNa::new(70);
    assert_eq!(a.dist(&zeros), 0);
    a.assign(0, Some(true));
    a.assign(63, Some(true));
    a.assign(64, Some(true));
    a.assign(69, Some(true));
    assert_eq!(a.dist(&zeros), 4);
    a.assign(64, Some(false));
    assert_eq!(a.dist(&zeros), 3);
    a.assign(63, None);
    assert_eq!(a.dist(&zeros), 2);
    a.assign(63, Some(true));
    assert_eq!(a.dist(&zeros), 3);
    a.set_missing(0);
    assert_eq!(a.dist(&zeros), 2);
    let mut b = BitArrNa::new(70);
    b.set_one(5);
    assert_eq!(b.dist(&zeros), 1);
    assert_eq!(a.dist(&b), 3);
}

#[test]
fn push_grows_a_sample_position_by_position() {
    let text = pattern(140, 3, 'X');
    let whole = parsed(&text, 'X');
    let mut grown = BitArrNa::new(0);
    assert_eq!(grown.len(), 0);
    for (i, c) in text.chars().enumerate() {
        let value = if c == '0' {
            Some(false)
        } else if c == '1' {
            Some(true)
        } else {
            None
        };
        grown.push(value);
        assert_eq!(grown.len(), i + 1);
    }
    let ones = parsed(&"1".repeat(140), 'X');
    let zeros = BitArrNa::new(140);
    assert_eq!(grown.dist(&ones), whole.dist(&ones));
    assert_eq!(grown.dist(&zeros), whole.dist(&zeros));
    assert_eq!(grown.dist(&whole), 0);
    assert_eq!(grown.dist(&ones), naive(&text, &"1".repeat(140), 'X'));
}

#[test]
fn new_sample_is_all_zero_and_observed() {
    let a = BitArrNa::new(100);
    assert_eq!(a.len(), 100);
    let ones = parsed(&"1".repeat(100), 'X');
    assert_eq!(a.dist(&ones), 100);
    let empty = BitArrNa::new(0);
    assert_eq!(empty.len(), 0);
    assert_eq!(empty.dist(&BitArrNa::new(0)), 0);
}
