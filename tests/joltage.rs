use joltage::bank::{bank_joltage, total_joltage, try_bank_joltage};
use joltage::input::{InputSource, StdinOrFile};

fn lines(v: &[&str]) -> Vec<String> {
    v.iter().map(|s| s.to_string()).collect()
}

#[test]
fn joltage_of_91() {
    assert_eq!(bank_joltage("91"), 91);
}

#[test]
fn joltage_of_19() {
    assert_eq!(bank_joltage("19"), 19);
}

#[test]
fn joltage_of_29991() {
    assert_eq!(bank_joltage("29991"), 99);
}

#[test]
fn joltage_of_55() {
    assert_eq!(bank_joltage("55"), 55);
}

#[test]
fn joltage_of_digit_lines_stays_below_100() {
    assert_eq!(bank_joltage("99"), 99);
    assert_eq!(bank_joltage("00"), 0);
    assert_eq!(bank_joltage("987654321111111"), 98);
    assert_eq!(bank_joltage("811111111111119"), 89);
    assert_eq!(bank_joltage("234234234234278"), 78);
    assert_eq!(bank_joltage("818181911112111"), 92);
}

#[test]
fn leftmost_maximum_is_taken() {
    // the first 4 is at index 1, leaving "43" after it; the second would leave "3"
    assert_eq!(bank_joltage("3443"), 44);
    assert_eq!(bank_joltage("7177"), 77);
}

#[test]
fn last_byte_is_left_out_of_the_first_pick() {
    assert_eq!(bank_joltage("129"), 29);
    assert_eq!(bank_joltage("1119"), 19);
}

#[test]
fn short_lines_have_no_joltage() {
    assert_eq!(try_bank_joltage(""), None);
    assert_eq!(try_bank_joltage("5"), None);
    assert_eq!(try_bank_joltage("42"), Some(42));
}

#[test]
fn picked_byte_below_zero_digit_has_no_joltage() {
    assert_eq!(try_bank_joltage(" 9"), None);
    assert_eq!(try_bank_joltage("9 "), None);
    assert_eq!(try_bank_joltage("9 7"), Some(97));
}

#[test]
fn other_bytes_count_by_their_value() {
    assert_eq!(try_bank_joltage("a0"), Some(490));
    // 0xC3 0xA9 then '9': 0xC3 is picked first, 0xA9 second
    assert_eq!(try_bank_joltage("\u{e9}9"), Some(1591));
}

#[test]
fn total_of_three_lines() {
    assert_eq!(total_joltage(&lines(&["91", "19", "55"])), Ok(165));
}

#[test]
fn total_of_no_lines_is_zero() {
    assert_eq!(total_joltage(&Vec::new()), Ok(0));
}

#[test]
fn total_stops_at_first_undefined_line() {
    assert_eq!(total_joltage(&lines(&["91", "5", "", "19"])), Err(1));
    assert_eq!(total_joltage(&lines(&["", "5"])), Err(0));
}

#[test]
fn total_is_the_same_on_the_same_input() {
    let input = lines(&["987654321111111", "811111111111119", "234234234234278", "818181911112111"]);
    let first = total_joltage(&input);
    let second = total_joltage(&input.clone());
    assert_eq!(first, Ok(357));
    assert_eq!(first, second);
}

#[test]
fn no_argument_selects_standard_input() {
    assert!(matches!(StdinOrFile::select(&lines(&["prog"])), InputSource::Stdin));
    assert!(matches!(StdinOrFile::select(&Vec::new()), InputSource::Stdin));
}

#[test]
fn first_argument_selects_a_file() {
    match StdinOrFile::select(&lines(&["prog", "input.txt", "extra"])) {
        InputSource::File(p) => assert_eq!(p, "input.txt"),
        InputSource::Stdin => panic!("expected a file"),
    }
}
