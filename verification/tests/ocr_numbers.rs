use katas::ocr_numbers::{convert, convert_lines, try_convert, Error, Reader};

fn rows(input: &[&str]) -> Vec<Vec<char>> {
    input.iter().map(|l| l.chars().collect()).collect()
}

#[test]
fn input_with_lines_not_multiple_of_four_is_error() {
    let input = " _ \n| |\n   ";
    assert_eq!(Err(Error::InvalidRowCount(3)), convert(input));
}

#[test]
fn input_with_columns_not_multiple_of_three_is_error() {
    let input = "    \n   |\n   |\n    ";
    assert_eq!(Err(Error::InvalidColumnCount(4)), convert(input));
}

#[test]
fn unrecognized_characters_return_question_mark() {
    let input = "   \n  _\n  |\n   ";
    assert_eq!(Ok("?".to_string()), convert(input));
}

#[test]
fn recognizes_each_digit() {
    assert_eq!(Ok("0".to_string()), convert(" _ \n| |\n|_|\n   "));
    assert_eq!(Ok("1".to_string()), convert("   \n  |\n  |\n   "));
    assert_eq!(Ok("2".to_string()), convert(" _ \n _|\n|_ \n   "));
    assert_eq!(Ok("3".to_string()), convert(" _ \n _|\n _|\n   "));
    assert_eq!(Ok("4".to_string()), convert("   \n|_|\n  |\n   "));
    assert_eq!(Ok("5".to_string()), convert(" _ \n|_ \n _|\n   "));
    assert_eq!(Ok("6".to_string()), convert(" _ \n|_ \n|_|\n   "));
    assert_eq!(Ok("7".to_string()), convert(" _ \n  |\n  |\n   "));
    assert_eq!(Ok("8".to_string()), convert(" _ \n|_|\n|_|\n   "));
    assert_eq!(Ok("9".to_string()), convert(" _ \n|_|\n _|\n   "));
}

#[test]
fn a_drawing_with_a_mark_in_the_last_row_is_no_digit() {
    assert_eq!(Ok("?".to_string()), convert(" _ \n| |\n|_|\n _ "));
}

#[test]
fn recognizes_110101100() {
    let input = "       _     _        _  _ \n  |  || |  || |  |  || || |\n  |  ||_|  ||_|  |  ||_||_|\n                           ";
    assert_eq!(Ok("110101100".to_string()), convert(input));
}

#[test]
fn replaces_only_garbled_numbers_with_question_mark() {
    let input = "       _     _           _ \n  |  || |  || |     || || |\n  |  | _|  ||_|  |  ||_||_|\n                           ";
    assert_eq!(Ok("11?10?1?0".to_string()), convert(input));
}

#[test]
fn recognizes_string_of_decimal_numbers() {
    let input = "    _  _     _  _  _  _  _  _ \n  | _| _||_||_ |_   ||_||_|| |\n  ||_  _|  | _||_|  ||_| _||_|\n                              ";
    assert_eq!(Ok("1234567890".to_string()), convert(input));
}

#[test]
fn numbers_across_multiple_lines_are_joined_by_commas() {
    let input = "    _  _ \n  | _| _|\n  ||_  _|\n         \n    _  _ \n|_||_ |_ \n  | _||_|\n         \n _  _  _ \n  ||_||_|\n  ||_| _|\n         ";
    assert_eq!(Ok("123,456,789".to_string()), convert(input));
}

#[test]
fn a_final_line_feed_changes_nothing() {
    assert_eq!(Ok("1".to_string()), convert("   \n  |\n  |\n   \n"));
}

#[test]
fn later_rows_may_be_narrower_or_wider_than_the_first() {
    let input = "   \n  |\n  |\n   \n _  _ \n _| _|\n|_ |_ \n      ";
    assert_eq!(Ok("1,22".to_string()), convert(input));
}

#[test]
fn drawings_that_cannot_be_read_at_all() {
    assert_eq!(None, try_convert(""));
    assert_eq!(None, try_convert(" _ \n| |\n|_\n   "));
    assert_eq!(Some(Err(Error::InvalidRowCount(3))), try_convert(" _ \n| |\n|_|\n"));
    assert_eq!(None, try_convert(" _ \n| |\n|_|\n  "));
    assert_eq!(None, try_convert(" \u{e9} \n| |\n|_|\n   "));
    assert_eq!(None, try_convert("   \n  |\n  |\n   \n _  \n| | \n|_| \n    "));
    assert_eq!(Some(Ok("8".to_string())), try_convert(" _ \n|_|\n|_|\n   "));
    assert_eq!(Some(Err(Error::InvalidRowCount(1))), try_convert("x"));
    assert_eq!(Some(Err(Error::InvalidColumnCount(1))), try_convert("x\n\n\n\n"));
}

#[test]
fn converting_rows_that_were_split_elsewhere() {
    assert_eq!(Some(Ok(vec!['4'])), convert_lines(&rows(&["   ", "|_|", "  |", "   "])));
    assert_eq!(Some(Err(Error::InvalidRowCount(2))), convert_lines(&rows(&["   ", "|_|"])));
    assert_eq!(None, convert_lines(&rows(&[])));
}

#[test]
fn reading_letter_by_letter() {
    let drawing = rows(&["    _ ", "  | _|", "  ||_ ", "      ", " _ ", "|_|", "|_|", "   "]);
    let mut reader = Reader::new(&drawing);
    assert_eq!(Some('1'), reader.read_letter());
    assert_eq!(Some('2'), reader.read_letter());
    assert_eq!(Some(','), reader.read_letter());
    assert_eq!(Some('8'), reader.read_letter());
    assert_eq!(None, reader.read_letter());
    assert_eq!(None, reader.read_letter());
}
