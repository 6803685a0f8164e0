use mangadl::{IntRange, RangeError};
use std::str::FromStr;

#[test]
fn parse_valid_range() -> Result<(), RangeError> {
    assert_eq!(IntRange::from_str("5..10")?, IntRange::new_range(5, 10));
    assert_eq!(IntRange::from_str("1..1")?, IntRange::new_range(1, 1));
    Ok(())
}

#[test]
fn parse_valid_inclusive_range() -> Result<(), RangeError> {
    assert_eq!(
        IntRange::from_str("0..=100")?,
        IntRange::new_inclusive_range(0, 100)
    );

    assert_eq!(
        IntRange::from_str("..=10")?,
        IntRange::new(None, Some(10), true)
    );
    Ok(())
}

#[test]
fn parse_valid_unbound() -> Result<(), RangeError> {
    assert_eq!(IntRange::from_str("..")?, IntRange::new(None, None, false));
    Ok(())
}

#[test]
fn parse_valid_unit() -> Result<(), RangeError> {
    assert_eq!(
        IntRange::from_str("10")?,
        IntRange::new(Some(10), Some(10), true)
    );
    assert!(IntRange::from_str("10")?.contains(&10));
    Ok(())
}

#[test]
fn contains_range_too_low() {
    assert!(!IntRange::new_range(5, 10).contains(&4));
}

#[test]
fn contains_range_too_high() {
    assert!(!IntRange::new_range(5, 10).contains(&11));
}

#[test]
fn contains_range_start_inclusive() {
    assert!(IntRange::new_range(5, 10).contains(&5));
    assert!(IntRange::new(Some(5), None, false).contains(&5));
}

#[test]
fn contains_range_end_inclusive() {
    assert!(IntRange::new_inclusive_range(5, 10).contains(&10));
    assert!(!IntRange::new_range(5, 10).contains(&10));
    assert!(IntRange::new(None, Some(10), true).contains(&10));
    assert!(!IntRange::new(None, Some(10), false).contains(&10));
}

#[test]
fn valid_range() {
    assert!(IntRange::new_range(5, 10).contains(&6));
    assert!(IntRange::new(None, Some(10), false).contains(&1));
    assert!(IntRange::new(None, Some(10), true).contains(&6));
}

#[test]
fn invalid_start() {
    assert_eq!(
        IntRange::from_str("a..10").err().unwrap().to_string(),
        "Invalid start value"
    );

    assert_eq!(
        IntRange::from_str("-10..10").err().unwrap().to_string(),
        "Invalid start value"
    );
}

#[test]
fn invalid_end() {
    assert_eq!(
        IntRange::from_str("..&10").err().unwrap().to_string(),
        "Invalid end value"
    );

    assert_eq!(
        IntRange::from_str("..a").err().unwrap().to_string(),
        "Invalid end value"
    );
}

#[test]
fn dont_allow_minus_numbers() {
    assert_eq!(
        IntRange::from_str("-10..-10").err().unwrap().to_string(),
        "Invalid start value"
    );
    assert_eq!(
        IntRange::from_str("-10..10").err().unwrap().to_string(),
        "Invalid start value"
    );
    assert_eq!(
        IntRange::from_str("10..-10").err().unwrap().to_string(),
        "Invalid end value"
    );
}

#[test]
fn conversion_from_ranges() {
    assert_eq!(
        Into::<IntRange>::into(..5),
        IntRange::new(None, Some(5), false)
    );
    assert_eq!(
        Into::<IntRange>::into(5..),
        IntRange::new(Some(5), None, false)
    );
    assert_eq!(
        Into::<IntRange>::into(5..=10),
        IntRange::new(Some(5), Some(10), true)
    );
    assert_eq!(
        Into::<IntRange>::into(..=5),
        IntRange::new(None, Some(5), true)
    );
    assert_eq!(Into::<IntRange>::into(..), IntRange::new(None, None, false));
}

#[test]
fn conversion_from_half_open_range() {
    assert_eq!(
        Into::<IntRange>::into(5..10),
        IntRange::new(Some(5), Some(10), false)
    );
}

#[test]
fn half_open_range_boundaries() {
    let r = IntRange::parse("5..10").unwrap();
    assert!(!r.contains(&4));
    assert!(r.contains(&5));
    assert!(r.contains(&9));
    assert!(!r.contains(&10));
}

#[test]
fn inclusive_range_holds_both_ends() {
    let r = IntRange::parse("0..=100").unwrap();
    assert!(r.contains(&0));
    assert!(r.contains(&100));
    assert!(!r.contains(&101));
}

#[test]
fn bare_number_is_unit_range() {
    let r = IntRange::parse("10").unwrap();
    assert_eq!(r, IntRange::new_inclusive_range(10, 10));
    assert!(r.contains(&10));
    assert!(!r.contains(&11));
    assert!(!r.contains(&9));
}

#[test]
fn negative_bounds_name_their_side() {
    assert_eq!(IntRange::parse("-10..10"), Err(RangeError::InvalidStart));
    assert_eq!(IntRange::parse("10..-10"), Err(RangeError::InvalidEnd));
}

#[test]
fn open_ranges() {
    let from = IntRange::parse("7..").unwrap();
    assert_eq!(from, IntRange::new(Some(7), None, false));
    assert!(from.contains(&7));
    assert!(from.contains(&u32::MAX));
    assert!(!from.contains(&6));
    let to = IntRange::parse("..20").unwrap();
    assert!(to.contains(&0));
    assert!(to.contains(&19));
    assert!(!to.contains(&20));
    assert!(IntRange::parse("..").unwrap().contains(&12345));
}

#[test]
fn text_beyond_second_separator_is_ignored() {
    assert_eq!(IntRange::parse("1..5..9"), Ok(IntRange::new_range(1, 5)));
    assert_eq!(IntRange::parse("1....9"), Ok(IntRange::new(Some(1), None, false)));
}

#[test]
fn repeated_equals_signs_are_dropped() {
    assert_eq!(IntRange::parse("..==5"), Ok(IntRange::new(None, Some(5), true)));
    assert_eq!(IntRange::parse("3..="), Ok(IntRange::new(Some(3), None, true)));
}

#[test]
fn plus_sign_and_overflow() {
    assert_eq!(IntRange::parse("+5..7"), Ok(IntRange::new_range(5, 7)));
    assert_eq!(
        IntRange::parse("4294967295"),
        Ok(IntRange::new_inclusive_range(u32::MAX, u32::MAX))
    );
    assert_eq!(IntRange::parse("4294967296..1"), Err(RangeError::InvalidStart));
    assert_eq!(IntRange::parse("1..4294967296"), Err(RangeError::InvalidEnd));
    assert_eq!(IntRange::parse("+..1"), Err(RangeError::InvalidStart));
}

#[test]
fn empty_text_is_unbounded() {
    assert_eq!(IntRange::parse(""), Ok(IntRange::new(None, None, true)));
}

#[test]
fn text_round_trip() {
    for r in [
        IntRange::new_range(5, 10),
        IntRange::new_inclusive_range(0, 100),
        IntRange::new(None, Some(3), true),
        IntRange::new(Some(42), None, false),
        IntRange::new(None, None, true),
        IntRange::new(None, None, false),
    ] {
        assert_eq!(IntRange::parse(&r.to_text()), Ok(r));
    }
    assert_eq!(IntRange::new_inclusive_range(5, 10).to_text(), "5..=10");
    assert_eq!(IntRange::new(None, Some(7), false).to_text(), "..7");
}

#[test]
fn error_messages() {
    assert_eq!(RangeError::InvalidStart.to_string(), "Invalid start value");
    assert_eq!(RangeError::InvalidEnd.to_string(), "Invalid end value");
}
