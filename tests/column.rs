use tabulate::column::{MeasureColumn, Ratio};

fn measured(samples: &[&str]) -> MeasureColumn {
    let mut col = MeasureColumn::new(false);
    for s in samples {
        col.add_sample(s);
    }
    col
}

#[test]
fn ratio_zero_takes_the_longest() {
    let col = measured(&["a", "abcdefghij", "ab", "ab", "ab", "ab", "ab"]);
    assert_eq!(col.calculate_size(Ratio { num: 0, den: 1 }).get_size(), 10);
}

#[test]
fn compression_skips_a_rare_long_value() {
    let mut samples = vec!["ab"; 50];
    samples.push("abcdefghijklmnopqrstuvwxyz0123456789");
    let col = measured(&samples);
    assert_eq!(col.calculate_size(Ratio { num: 1, den: 1 }).get_size(), 2);
}

#[test]
fn compression_on_two_lengths() {
    let col = measured(&["aa", "1"]);
    assert_eq!(col.calculate_size(Ratio { num: 1, den: 1 }).get_size(), 2);
}

#[test]
fn single_length_column() {
    let col = measured(&["abc", "def"]);
    assert_eq!(col.calculate_size(Ratio { num: 3, den: 2 }).get_size(), 3);
}

#[test]
fn flags_and_extremes_carry_over() {
    let mut col = MeasureColumn::new(true);
    col.set_excluded(true);
    col.set_truncated(true);
    col.add_sample("bb");
    col.add_sample("a");
    col.add_sample("c");
    col.add_sample("dddd");
    col.add_sample("eeee");
    let settled = col.calculate_size(Ratio { num: 0, den: 1 });
    assert!(settled.is_excluded());
    assert!(settled.is_truncated());
    assert_eq!(settled.get_size(), 4);
    assert_eq!(settled.min_value(), Some("a"));
    assert_eq!(settled.max_value(), Some("dddd"));
}

#[test]
fn no_extremes_without_info() {
    let col = measured(&["x"]);
    let settled = col.calculate_size(Ratio { num: 1, den: 1 });
    assert!(!settled.has_info());
    assert_eq!(settled.min_value(), None);
}

#[test]
fn cell_padding_and_overflow() {
    let col = measured(&["abcd"]).calculate_size(Ratio { num: 0, den: 1 });
    let mut out = String::new();
    assert_eq!(col.print_cell(&mut out, "ab", 0, false), 0);
    assert_eq!(out, "ab  ");

    let mut out = String::new();
    assert_eq!(col.print_cell(&mut out, "abcdef", 1, false), 3);
    assert_eq!(out, "abcdef");

    let mut out = String::new();
    assert_eq!(col.print_cell(&mut out, "ab", 3, false), 1);
    assert_eq!(out, "ab");

    let mut out = String::new();
    assert_eq!(col.print_cell(&mut out, "a", 1, false), 0);
    assert_eq!(out, "a  ");

    let mut out = String::new();
    assert_eq!(col.print_cell(&mut out, "ab", 7, true), 0);
    assert_eq!(out, "ab");
}

#[test]
fn cell_truncation() {
    let mut col = measured(&["abcd"]);
    col.set_truncated(true);
    let col = col.calculate_size(Ratio { num: 0, den: 1 });
    let mut out = String::new();
    assert_eq!(col.print_cell(&mut out, "abcdef", 0, false), 0);
    assert_eq!(out, "abc…");

    let mut out = String::new();
    assert_eq!(col.print_cell(&mut out, "abcdef", 4, false), 1);
    assert_eq!(out, "…");

    let mut out = String::new();
    assert_eq!(col.print_cell(&mut out, "abc", 2, false), 0);
    assert_eq!(out, "a…");

    let mut out = String::new();
    assert_eq!(col.print_cell(&mut out, "abcdef", 0, true), 0);
    assert_eq!(out, "abcdef");
}

#[test]
fn multibyte_fields_count_bytes() {
    let col = measured(&["\u{0423}\u{0423}"]).calculate_size(Ratio { num: 0, den: 1 });
    assert_eq!(col.get_size(), 4);
    let mut out = String::new();
    assert_eq!(col.print_cell(&mut out, "\u{0423}", 0, false), 0);
    assert_eq!(out, "\u{0423}   ");
}
