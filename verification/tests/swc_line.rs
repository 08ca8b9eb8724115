use reuron::integrations::swc_line::{complain, fields, parse_i32, parse_u8, words};

fn strings(words: &[&str]) -> Vec<String> {
    words.iter().map(|w| w.to_string()).collect()
}

#[test]
fn words_are_the_pieces_between_single_spaces() {
    assert_eq!(words("1 1 0.0 0.0 0.0 5.5 -1"), strings(&["1", "1", "0.0", "0.0", "0.0", "5.5", "-1"]));
    assert_eq!(words("soma"), strings(&["soma"]));
    assert_eq!(words(""), strings(&[""]));
}

#[test]
fn neighbouring_spaces_have_an_empty_word_between_them() {
    assert_eq!(words("a  b"), strings(&["a", "", "b"]));
    assert_eq!(words(" a"), strings(&["", "a"]));
    assert_eq!(words("a "), strings(&["a", ""]));
    assert_eq!(words(" "), strings(&["", ""]));
}

#[test]
fn words_agree_with_the_standard_split() {
    for line in ["", " ", "x", "x y", "  x  y  ", "3 2 1.0 2.0 3.0 0.5 2", "é ü  ß", "tab\tstays one"] {
        let expected: Vec<String> = line.split(' ').map(|w| w.to_string()).collect();
        assert_eq!(words(line), expected);
    }
}

#[test]
fn empty_lines_and_comments_hold_nothing() {
    assert_eq!(fields("").expect("an empty line is skipped"), None);
    assert_eq!(fields("# id type x y z r parent").expect("a comment is skipped"), None);
    assert_eq!(fields("#").expect("a comment is skipped"), None);
}

#[test]
fn an_entry_has_seven_words() {
    let found = fields("3 2 1.5 -2.0 3.25 0.5 2").expect("seven words").expect("an entry");
    assert_eq!(found, strings(&["3", "2", "1.5", "-2.0", "3.25", "0.5", "2"]));
}

#[test]
fn lines_of_another_length_are_refused() {
    let few = fields("3 2 1.5 -2.0 3.25 0.5").expect_err("six words");
    assert_eq!(few.0, "Incorrect SWC line: too few words");
    let many = fields("3 2 1.5 -2.0 3.25 0.5 2 9").expect_err("eight words");
    assert_eq!(many.0, "Incorrect SWC line: too few words");
    let doubled = fields("3  2 1.5 -2.0 3.25 0.5 2").expect_err("an empty word counts");
    assert_eq!(doubled.0, "Incorrect SWC line: too few words");
    let indented = fields(" # not a comment").expect_err("a comment starts the line");
    assert_eq!(indented.0, "Incorrect SWC line: too few words");
}

#[test]
fn whole_numbers_are_read_with_or_without_a_sign() {
    assert_eq!(parse_i32("42", "id").expect("digits"), 42);
    assert_eq!(parse_i32("-1", "parent").expect("a negative number"), -1);
    assert_eq!(parse_i32("+7", "id").expect("a plus sign"), 7);
    assert_eq!(parse_i32("007", "id").expect("leading zeros"), 7);
    assert_eq!(parse_i32("-0", "id").expect("minus zero"), 0);
    assert_eq!(parse_i32("2147483647", "id").expect("the largest"), i32::MAX);
    assert_eq!(parse_i32("-2147483648", "id").expect("the smallest"), i32::MIN);
}

#[test]
fn what_is_no_whole_number_is_refused_under_the_column_name() {
    assert_eq!(parse_i32("", "id").expect_err("empty").0, "id: cannot parse integer from empty string");
    assert_eq!(parse_i32("4x", "id").expect_err("a letter").0, "id: invalid digit found in string");
    assert_eq!(parse_i32(" 4", "parent").expect_err("a space").0, "parent: invalid digit found in string");
    assert_eq!(parse_i32("1.0", "id").expect_err("a fraction").0, "id: invalid digit found in string");
    assert_eq!(parse_i32("-", "id").expect_err("a lone sign").0, "id: invalid digit found in string");
    assert_eq!(
        parse_i32("2147483648", "id").expect_err("too large").0,
        "id: number too large to fit in target type"
    );
    assert_eq!(
        parse_i32("-2147483649", "id").expect_err("too small").0,
        "id: number too small to fit in target type"
    );
}

#[test]
fn type_codes_are_read_without_a_minus_sign() {
    assert_eq!(parse_u8("0", "segment_type").expect("zero"), 0);
    assert_eq!(parse_u8("5", "segment_type").expect("a digit"), 5);
    assert_eq!(parse_u8("+3", "segment_type").expect("a plus sign"), 3);
    assert_eq!(parse_u8("255", "segment_type").expect("the largest"), 255);
    assert_eq!(
        parse_u8("256", "segment_type").expect_err("too large").0,
        "segment_type: number too large to fit in target type"
    );
    assert_eq!(
        parse_u8("-1", "segment_type").expect_err("a minus sign").0,
        "segment_type: invalid digit found in string"
    );
    assert_eq!(
        parse_u8("-0", "segment_type").expect_err("a minus sign").0,
        "segment_type: invalid digit found in string"
    );
    assert_eq!(
        parse_u8("", "segment_type").expect_err("empty").0,
        "segment_type: cannot parse integer from empty string"
    );
}

#[test]
fn a_complaint_names_its_column() {
    assert_eq!(complain("x", "invalid float literal").0, "x: invalid float literal");
    assert_eq!(complain("", "").0, ": ");
}
