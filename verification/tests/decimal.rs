use graphql_test::decimal::{parse_usize, usize_to_decimal, ParseIdError};

#[test]
fn decimal_of_small_and_large_numbers() {
    assert_eq!(usize_to_decimal(0), "0");
    assert_eq!(usize_to_decimal(7), "7");
    assert_eq!(usize_to_decimal(10), "10");
    assert_eq!(usize_to_decimal(5432), "5432");
    assert_eq!(usize_to_decimal(usize::MAX), usize::MAX.to_string());
}

#[test]
fn parse_accepts_digits_and_one_plus() {
    assert_eq!(parse_usize("42"), Ok(42));
    assert_eq!(parse_usize("007"), Ok(7));
    assert_eq!(parse_usize("+7"), Ok(7));
    assert_eq!(parse_usize("0"), Ok(0));
}

#[test]
fn parse_refuses_empty_text() {
    assert_eq!(parse_usize(""), Err(ParseIdError::Empty));
}

#[test]
fn parse_refuses_signs_and_other_characters() {
    assert_eq!(parse_usize("+"), Err(ParseIdError::InvalidDigit));
    assert_eq!(parse_usize("-1"), Err(ParseIdError::InvalidDigit));
    assert_eq!(parse_usize("12a"), Err(ParseIdError::InvalidDigit));
    assert_eq!(parse_usize(" 1"), Err(ParseIdError::InvalidDigit));
    assert_eq!(parse_usize("++1"), Err(ParseIdError::InvalidDigit));
    assert_eq!(parse_usize("é"), Err(ParseIdError::InvalidDigit));
}

#[test]
fn parse_refuses_numbers_past_usize_max() {
    let too_big = format!("{}0", usize::MAX);
    assert_eq!(parse_usize(&too_big), Err(ParseIdError::Overflow));
    // the overflow comes before the bad character is reached
    let too_big_then_bad = format!("{}0x", usize::MAX);
    assert_eq!(parse_usize(&too_big_then_bad), Err(ParseIdError::Overflow));
    assert_eq!(parse_usize(&usize::MAX.to_string()), Ok(usize::MAX));
}

#[test]
fn parse_agrees_with_std() {
    let inputs = [
        "", "+", "-", "0", "+0", "-0", "12", "+12", "1+2", "99999999999999999999", "9x", "x9",
        "١٢", "00000000000000000000000000001",
    ];
    for s in inputs.iter() {
        let ours = parse_usize(s);
        match s.parse::<usize>() {
            Ok(v) => assert_eq!(ours, Ok(v), "{}", s),
            Err(e) => {
                let kind = match e.kind() {
                    std::num::IntErrorKind::Empty => ParseIdError::Empty,
                    std::num::IntErrorKind::InvalidDigit => ParseIdError::InvalidDigit,
                    std::num::IntErrorKind::PosOverflow => ParseIdError::Overflow,
                    _ => panic!("unexpected error kind for {}", s),
                };
                assert_eq!(ours, Err(kind), "{}", s);
            }
        }
    }
}

#[test]
fn parse_reads_back_decimal() {
    for n in [0usize, 1, 9, 10, 99, 100, 12345, usize::MAX - 1, usize::MAX].iter() {
        assert_eq!(parse_usize(&usize_to_decimal(*n)), Ok(*n));
    }
}
