use graph_metrics::loader::{parse_edge_line, parse_index, split_fields, IndexError, LineError};
use std::num::IntErrorKind;

fn chars(text: &str) -> Vec<char> {
    text.chars().collect()
}

fn by_the_standard_library(field: &str) -> Result<usize, IndexError> {
    match field.parse::<usize>() {
        Ok(index) => Ok(index),
        Err(error) => match error.kind() {
            IntErrorKind::Empty => Err(IndexError::Empty),
            IntErrorKind::InvalidDigit => Err(IndexError::InvalidDigit),
            IntErrorKind::PosOverflow => Err(IndexError::Overflow),
            _ => unreachable!(),
        },
    }
}

#[test]
fn two_numbers_make_an_edge() {
    assert_eq!(parse_edge_line("0 1"), Ok((0, 1)));
    assert_eq!(parse_edge_line("12 345"), Ok((12, 345)));
    assert_eq!(parse_edge_line("7 7"), Ok((7, 7)));
}

#[test]
fn white_space_around_the_numbers_is_passed_over() {
    assert_eq!(parse_edge_line("  3\t4  "), Ok((3, 4)));
    assert_eq!(parse_edge_line("3 \t  4\r"), Ok((3, 4)));
    assert_eq!(parse_edge_line("\u{a0}3\u{3000}4\u{2003}"), Ok((3, 4)));
    assert_eq!(parse_edge_line("5\u{2028}6"), Ok((5, 6)));
    assert_eq!(parse_edge_line("5\u{b}6"), Ok((5, 6)));
}

#[test]
fn plus_sign_and_leading_zeros_are_accepted() {
    assert_eq!(parse_edge_line("+5 006"), Ok((5, 6)));
    assert_eq!(parse_edge_line("000 +0"), Ok((0, 0)));
}

#[test]
fn wrong_number_of_fields_is_refused() {
    assert_eq!(parse_edge_line(""), Err(LineError::FieldCount));
    assert_eq!(parse_edge_line("   "), Err(LineError::FieldCount));
    assert_eq!(parse_edge_line("1"), Err(LineError::FieldCount));
    assert_eq!(parse_edge_line("1 2 3"), Err(LineError::FieldCount));
    assert_eq!(parse_edge_line("a b c"), Err(LineError::FieldCount));
    assert_eq!(parse_edge_line("1,2"), Err(LineError::FieldCount));
}

#[test]
fn fields_that_are_no_numbers_are_refused() {
    let invalid = Err(LineError::Index(IndexError::InvalidDigit));
    assert_eq!(parse_edge_line("a b"), invalid);
    assert_eq!(parse_edge_line("1 b"), invalid);
    assert_eq!(parse_edge_line("a 2"), invalid);
    assert_eq!(parse_edge_line("-1 2"), invalid);
    assert_eq!(parse_edge_line("1 2.5"), invalid);
    assert_eq!(parse_edge_line("+ 2"), invalid);
    assert_eq!(parse_edge_line("++1 2"), invalid);
    assert_eq!(parse_edge_line("1 0x10"), invalid);
    assert_eq!(parse_edge_line("1 \u{663}"), invalid);
    assert_eq!(parse_edge_line("1\u{200b}2 3"), invalid);
}

#[test]
fn numbers_beyond_the_index_range_are_refused() {
    let overflow = Err(LineError::Index(IndexError::Overflow));
    let max = usize::MAX.to_string();
    assert_eq!(parse_edge_line(&format!("{} 1", max)), Ok((usize::MAX, 1)));
    assert_eq!(parse_edge_line(&format!("1 {}0", max)), overflow);
    assert_eq!(parse_edge_line("340282366920938463463374607431768211456 1"), overflow);
    assert_eq!(parse_edge_line("1 99999999999999999999999999999x"), overflow);
    assert_eq!(parse_edge_line("99999999999999999999999999999 x"), overflow);
}

#[test]
fn the_first_field_that_fails_decides() {
    assert_eq!(
        parse_edge_line("x 99999999999999999999999999999"),
        Err(LineError::Index(IndexError::InvalidDigit))
    );
    assert_eq!(
        parse_edge_line("99999999999999999999999999999 x"),
        Err(LineError::Index(IndexError::Overflow))
    );
}

#[test]
fn parsing_agrees_with_the_standard_library() {
    let lines = [
        "0 1", " 10   20 ", "+3 4", "3 +", "", "x", "1 2 3", "٣ 4", "1\u{85}2", "1\u{2000}2\u{200a}",
        "18446744073709551615 0", "18446744073709551616 0", "00000000000000000000001 2", "1 -0",
        "1_000 2", "1 2\n", "\t\t9\t\t8\t\t", "1 - ", "+1 +2", "1 18446744073709551615x",
        "1 1844674407370955161x", "1 184467440737095516150", "99999999999999999999 1x",
        "4294967295 4294967296", "1 ١", "１ 2", "1 2e3", "1\u{1680}2", "1\u{202f}2", "1\u{205f}2",
        "1\u{feff}2", "1\u{180e}2",
    ];
    for line in lines {
        let parts: Vec<&str> = line.split_whitespace().collect();
        let expected = if parts.len() == 2 {
            match by_the_standard_library(parts[0]) {
                Err(error) => Err(LineError::Index(error)),
                Ok(src) => match by_the_standard_library(parts[1]) {
                    Err(error) => Err(LineError::Index(error)),
                    Ok(dest) => Ok((src, dest)),
                },
            }
        } else {
            Err(LineError::FieldCount)
        };
        assert_eq!(parse_edge_line(line), expected);
    }
}

#[test]
fn every_white_space_character_separates() {
    for code in 0..0x3100u32 {
        if let Some(c) = char::from_u32(code) {
            let line = format!("1{}2", c);
            let parts = split_fields(&chars(&line));
            if c.is_whitespace() {
                assert_eq!(parts, vec![chars("1"), chars("2")]);
            } else {
                assert_eq!(parts, vec![chars(&line)]);
            }
        }
    }
}

#[test]
fn fields_are_the_runs_between_white_space() {
    let parts = split_fields(&chars("  ab  c\td "));
    assert_eq!(parts, vec![chars("ab"), chars("c"), chars("d")]);
    assert!(split_fields(&chars("")).is_empty());
    assert!(split_fields(&chars(" \t ")).is_empty());
    assert_eq!(split_fields(&chars("x")), vec![chars("x")]);
}

#[test]
fn index_is_read_in_base_ten() {
    assert_eq!(parse_index(&chars("0")), Ok(0));
    assert_eq!(parse_index(&chars("1234567890")), Ok(1234567890));
    assert_eq!(parse_index(&chars("+42")), Ok(42));
    assert_eq!(parse_index(&chars(&usize::MAX.to_string())), Ok(usize::MAX));
}

#[test]
fn index_errors_name_what_went_wrong() {
    assert_eq!(parse_index(&chars("")), Err(IndexError::Empty));
    assert_eq!(parse_index(&chars("+")), Err(IndexError::InvalidDigit));
    assert_eq!(parse_index(&chars("-")), Err(IndexError::InvalidDigit));
    assert_eq!(parse_index(&chars("4 2")), Err(IndexError::InvalidDigit));
    assert_eq!(parse_index(&chars("42+")), Err(IndexError::InvalidDigit));
    assert_eq!(parse_index(&chars("18446744073709551616")), Err(IndexError::Overflow));
    assert_eq!(parse_index(&chars("18446744073709551615x")), Err(IndexError::InvalidDigit));
    assert_eq!(parse_index(&chars("184467440737095516150x")), Err(IndexError::Overflow));
    let fields =
        ["", "+", "-", "7", "+7", "-7", "7a", "a7", "99999999999999999999", "9999999999999999999a9"];
    for field in fields {
        assert_eq!(parse_index(&chars(field)), by_the_standard_library(field));
    }
}
