//! Rendering numbers and rows of numbers as text.

use vstd::prelude::*;

verus! {

/// `String::push` appends the given character to the end of the string.
pub assume_specification[ String::push ](s: &mut String, ch: char)
    ensures
        final(s)@ == old(s)@.push(ch),
;

/// The character for a decimal digit.
pub open spec fn digit_char(d: nat) -> char {
    if d == 0 {
        '0'
    } else if d == 1 {
        '1'
    } else if d == 2 {
        '2'
    } else if d == 3 {
        '3'
    } else if d == 4 {
        '4'
    } else if d == 5 {
        '5'
    } else if d == 6 {
        '6'
    } else if d == 7 {
        '7'
    } else if d == 8 {
        '8'
    } else {
        '9'
    }
}

/// Whether `c` is one of the ten decimal digits.
pub open spec fn is_digit(c: char) -> bool {
    c == '0' || c == '1' || c == '2' || c == '3' || c == '4' || c == '5' || c == '6' || c == '7'
        || c == '8' || c == '9'
}

/// The decimal numeral of `n`, without sign or leading zeros.
pub open spec fn decimal(n: nat) -> Seq<char>
    decreases n,
{
    if n < 10 {
        seq![digit_char(n)]
    } else {
        decimal(n / 10).push(digit_char(n % 10))
    }
}

/// The numerals of `fields`, with a comma between neighbours.
pub open spec fn joined(fields: Seq<nat>) -> Seq<char>
    decreases fields.len(),
{
    if fields.len() == 0 {
        Seq::empty()
    } else if fields.len() == 1 {
        decimal(fields[0])
    } else {
        joined(fields.drop_last()).push(',') + decimal(fields.last())
    }
}

/// One line of text for each row: its joined numerals and a line feed.
pub open spec fn lines_text(rows: Seq<Seq<nat>>) -> Seq<char>
    decreases rows.len(),
{
    if rows.len() == 0 {
        Seq::empty()
    } else {
        lines_text(rows.drop_last()) + joined(rows.last()).push('\n')
    }
}

/// How often `c` occurs in `s`.
pub open spec fn occurrences(s: Seq<char>, c: char) -> nat
    decreases s.len(),
{
    if s.len() == 0 {
        0
    } else {
        occurrences(s.drop_last(), c) + if s.last() == c {
            1nat
        } else {
            0nat
        }
    }
}

/// Occurrences add up over concatenation.
pub proof fn lemma_occurrences_concat(s: Seq<char>, t: Seq<char>, c: char)
    ensures
        occurrences(s + t, c) == occurrences(s, c) + occurrences(t, c),
    decreases t.len(),
{
    if t.len() == 0 {
        assert(s + t =~= s);
    } else {
        assert((s + t).drop_last() =~= s + t.drop_last());
        lemma_occurrences_concat(s, t.drop_last(), c);
    }
}

/// A character that is no digit does not occur in a numeral.
pub proof fn lemma_decimal_free_of(n: nat, c: char)
    requires
        !is_digit(c),
    ensures
        occurrences(decimal(n), c) == 0,
    decreases n,
{
    assert(is_digit(decimal(n).last()));
    if n >= 10 {
        lemma_decimal_free_of(n / 10, c);
        assert(decimal(n).drop_last() =~= decimal(n / 10));
    } else {
        assert(decimal(n).drop_last() =~= Seq::<char>::empty());
        assert(occurrences(decimal(n).drop_last(), c) == 0);
    }
}

/// A joined row of at least one field has one comma less than fields, and
/// no line feed.
pub proof fn lemma_joined_shape(fields: Seq<nat>)
    requires
        fields.len() >= 1,
    ensures
        occurrences(joined(fields), ',') == fields.len() - 1,
        occurrences(joined(fields), '\n') == 0,
    decreases fields.len(),
{
    if fields.len() == 1 {
        lemma_decimal_free_of(fields[0], ',');
        lemma_decimal_free_of(fields[0], '\n');
    } else {
        let head = joined(fields.drop_last());
        lemma_joined_shape(fields.drop_last());
        lemma_decimal_free_of(fields.last(), ',');
        lemma_decimal_free_of(fields.last(), '\n');
        lemma_occurrences_concat(head.push(','), decimal(fields.last()), ',');
        lemma_occurrences_concat(head.push(','), decimal(fields.last()), '\n');
        assert(head.push(',').drop_last() =~= head);
    }
}

/// The text of `rows` has one line feed for each row, provided that no row
/// is empty.
pub proof fn lemma_lines_count(rows: Seq<Seq<nat>>)
    requires
        forall|i: int| 0 <= i < rows.len() ==> (#[trigger] rows[i]).len() >= 1,
    ensures
        occurrences(lines_text(rows), '\n') == rows.len(),
    decreases rows.len(),
{
    if rows.len() > 0 {
        let line = joined(rows.last()).push('\n');
        assert forall|i: int| 0 <= i < rows.drop_last().len() implies (
        #[trigger] rows.drop_last()[i]).len() >= 1 by {
            assert(rows[i].len() >= 1);
        }
        lemma_lines_count(rows.drop_last());
        lemma_joined_shape(rows.last());
        lemma_occurrences_concat(lines_text(rows.drop_last()), line, '\n');
        assert(line.drop_last() =~= joined(rows.last()));
    }
}

/// The digit character of `d`.
pub fn digit(d: usize) -> (c: char)
    requires
        d < 10,
    ensures
        c == digit_char(d as nat),
{
    if d == 0 {
        '0'
    } else if d == 1 {
        '1'
    } else if d == 2 {
        '2'
    } else if d == 3 {
        '3'
    } else if d == 4 {
        '4'
    } else if d == 5 {
        '5'
    } else if d == 6 {
        '6'
    } else if d == 7 {
        '7'
    } else if d == 8 {
        '8'
    } else {
        '9'
    }
}

/// Appends the decimal numeral of `n` to `out`.
pub fn push_decimal(out: &mut String, n: usize)
    ensures
        final(out)@ == old(out)@ + decimal(n as nat),
    decreases n,
{
    if n >= 10 {
        push_decimal(out, n / 10);
    }
    out.push(digit(n % 10));
    proof {
        if n >= 10 {
            assert(out@ =~= old(out)@ + decimal(n as nat));
        } else {
            assert(out@ =~= old(out)@ + decimal(n as nat));
        }
    }
}

} // verus!
