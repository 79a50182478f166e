use tabulate::range::{Range, Ranges};
use tabulate::Error;

#[test]
fn zero_is_refused() {
    assert_eq!(Range::from_str("0"), Err(Error::ColumnsStartAtOne));
    assert_eq!(Range::from_str("0-3"), Err(Error::ColumnsStartAtOne));
    assert_eq!(Range::from_str("0-"), Err(Error::ColumnsStartAtOne));
    assert_eq!(Range::from_str("-0"), Err(Error::ColumnsStartAtOne));
    assert_eq!(Range::from_str("1-0"), Err(Error::ColumnsStartAtOne));
    assert_eq!(Range::from_str("5-0"), Err(Error::ColumnsStartAtOne));
}

#[test]
fn decreasing_range_is_refused() {
    assert_eq!(
        Range::from_str("3-1"),
        Err(Error::InvalidDecreasingRange { s: "3-1".to_string() })
    );
    assert_eq!(
        Range::from_str("5-2"),
        Err(Error::InvalidDecreasingRange { s: "5-2".to_string() })
    );
}

#[test]
fn malformed_selectors_are_refused() {
    for s in ["", "-", "a", "1-2-3", "1x", " 1", "--1", "1,2", "4294967296"] {
        assert_eq!(
            Range::from_str(s),
            Err(Error::RangeParseError { s: s.to_string() })
        );
    }
}

#[test]
fn selector_forms() {
    assert_eq!(Range::from_str("4"), Ok(Range::Between(4, 4)));
    assert_eq!(Range::from_str("2-"), Ok(Range::From(2)));
    assert_eq!(Range::from_str("-2"), Ok(Range::To(2)));
    assert_eq!(Range::from_str("2-5"), Ok(Range::Between(2, 5)));
    assert_eq!(Range::from_str("3-3"), Ok(Range::Between(3, 3)));
    assert_eq!(Range::from_str("4294967295"), Ok(Range::Between(4294967295, 4294967295)));
}

#[test]
fn open_selectors_match() {
    let from = Range::from_str("2-").unwrap();
    assert!(!from.contains(1));
    assert!(from.contains(2));
    assert!(from.contains(1000));
    let to = Range::from_str("-2").unwrap();
    assert!(to.contains(1));
    assert!(to.contains(2));
    assert!(!to.contains(3));
    let between = Range::from_str("2-3").unwrap();
    assert!(!between.contains(1));
    assert!(between.contains(2));
    assert!(between.contains(3));
    assert!(!between.contains(4));
}

#[test]
fn any_selector_of_a_set() {
    let rs = Ranges(vec![Range::Between(1, 1), Range::From(4)]);
    assert!(rs.any_contains(1));
    assert!(!rs.any_contains(2));
    assert!(!rs.any_contains(3));
    assert!(rs.any_contains(4));
    assert!(!Ranges::new().any_contains(1));
}

#[test]
fn selector_lists() {
    let rs = Ranges::parse_list("1,3-4,6-,-2", ',').unwrap();
    assert_eq!(
        rs.0,
        vec![Range::Between(1, 1), Range::Between(3, 4), Range::From(6), Range::To(2)]
    );
    assert_eq!(Ranges::parse_list("7", ',').unwrap().0, vec![Range::Between(7, 7)]);
}

#[test]
fn selector_list_errors() {
    assert_eq!(Ranges::parse_list("1,0", ',').unwrap_err(), Error::ColumnsStartAtOne);
    assert_eq!(
        Ranges::parse_list("1,,2", ',').unwrap_err(),
        Error::RangeParseError { s: "".to_string() }
    );
    assert_eq!(
        Ranges::parse_list("5-2,0", ',').unwrap_err(),
        Error::InvalidDecreasingRange { s: "5-2".to_string() }
    );
    assert_eq!(
        Ranges::parse_list("1;2", ',').unwrap_err(),
        Error::RangeParseError { s: "1;2".to_string() }
    );
    assert_eq!(Ranges::parse_list("1;2", ';').unwrap().0.len(), 2);
}
