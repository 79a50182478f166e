use tabulate::parser::{Row, RowParser};

#[test]
fn test_split_line_simple() {
    let parser = RowParser::new(" ", false);
    let mut row = Row::new();
    parser.parse_into(&mut row, "a b c");
    assert_eq!(row.get_parts(), ["a", "b", "c"]);
}

#[test]
fn test_split_line_collapse() {
    let parser = RowParser::new(" ", false);
    let mut row = Row::new();
    parser.parse_into(&mut row, "a   b    c");
    assert_eq!(row.get_parts(), ["a", "b", "c"]);
}

#[test]
fn test_split_line_ignore_leading_and_trailing() {
    let parser = RowParser::new(" ", false);
    let mut row = Row::new();
    parser.parse_into(&mut row, "   a   b    c   ");
    assert_eq!(row.get_parts(), ["a", "b", "c"]);
}

#[test]
fn test_split_line_empty() {
    let parser = RowParser::new(" ", false);
    let mut row = Row::new();
    parser.parse_into(&mut row, "");
    assert!(row.get_parts().first().is_none());

    parser.parse_into(&mut row, " ");
    assert!(row.get_parts().first().is_none());
}

#[test]
fn test_split_line_strict() {
    let parser = RowParser::new(" ", true);
    let mut row = Row::new();
    parser.parse_into(&mut row, "a b c");
    assert_eq!(row.get_parts(), ["a", "b", "c"]);

    parser.parse_into(&mut row, " a b  c");
    assert_eq!(row.get_parts(), ["", "a", "b", "", "c"]);
}

#[test]
fn test_split_line_strict_trailing_whitespace() {
    let parser = RowParser::new(" ", true);
    let mut row = Row::new();
    parser.parse_into(&mut row, "a ");
    assert_eq!(row.get_parts(), ["a", ""]);

    parser.parse_into(&mut row, "a  ");
    assert_eq!(row.get_parts(), ["a", "", ""]);
}

#[test]
fn test_split_line_strict_empty() {
    let parser = RowParser::new(" ", true);
    let mut row = Row::new();
    parser.parse_into(&mut row, "");
    assert_eq!(row.get_parts(), [""]);

    parser.parse_into(&mut row, " ");
    assert_eq!(row.get_parts(), ["", ""]);
}

#[test]
fn fuzz_regress_1() {
    let parser = RowParser::new(" ", true);
    let mut row = Row::new();
    parser.parse_into(&mut row, "\u{0423}");
    assert_eq!(row.get_parts(), ["\u{0423}"]);
}

#[test]
fn groups_keep_their_delimiters() {
    let parser = RowParser::new(" ", false);
    let mut row = Row::new();
    parser.parse_into(&mut row, "x (a b) [c d] \"e f\" y");
    assert_eq!(row.get_parts(), ["x", "(a b)", "[c d]", "\"e f\"", "y"]);
    assert_eq!(row.len(), 5);
    assert_eq!(row.field(1), "(a b)");
}

#[test]
fn unclosed_group_is_dropped() {
    let parser = RowParser::new(" ", false);
    let mut row = Row::new();
    parser.parse_into(&mut row, "a (b c");
    assert_eq!(row.get_parts(), ["a"]);
}

#[test]
fn strict_mode_has_no_groups() {
    let parser = RowParser::new(" ", true);
    let mut row = Row::new();
    parser.parse_into(&mut row, "(a b)");
    assert_eq!(row.get_parts(), ["(a", "b)"]);
}

#[test]
fn strict_mode_only_delimiters() {
    let parser = RowParser::new(",", true);
    let mut row = Row::new();
    parser.parse_into(&mut row, ",,");
    assert_eq!(row.get_parts(), ["", "", ""]);
}

#[test]
fn several_delimiter_characters() {
    let parser = RowParser::new(" \t", false);
    let mut row = Row::new();
    parser.parse_into(&mut row, "a\tb \t c");
    assert_eq!(row.get_parts(), ["a", "b", "c"]);
    assert!(!row.is_empty());
}

#[test]
fn row_starts_empty() {
    let row = Row::new();
    assert!(row.is_empty());
    assert_eq!(row.len(), 0);
}
