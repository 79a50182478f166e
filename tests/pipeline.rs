use tabulate::column::Ratio;
use tabulate::range::{Range, Ranges};
use tabulate::{Options, Pipeline};

fn options(lines: usize, exclude_cols: Ranges) -> Options {
    Options {
        truncate: None,
        ratio: Ratio { num: 1, den: 1 },
        lines,
        include_cols: None,
        exclude_cols,
        delim: " \t".to_string(),
        output_delim: "  ".to_string(),
        strict_delim: false,
        print_info: false,
        online: false,
    }
}

fn run(input: &str, opts: Options) -> String {
    let mut pipeline = Pipeline::new(opts);
    let mut output = String::new();
    for line in input.lines() {
        if pipeline.is_done() {
            break;
        }
        for printed in pipeline.push_line(line) {
            output.push_str(&printed);
            output.push('\n');
        }
    }
    for printed in pipeline.finish() {
        output.push_str(&printed);
        output.push('\n');
    }
    output
}

#[test]
fn basic_test() {
    let output = run("aa bb cc\n1 2 3\n", options(1000, Ranges::new()));
    assert_eq!(output, "aa  bb  cc\n1   2   3\n");
}

#[test]
fn exclude_column() {
    let input = "aa bb cc\n1 2 3\n";
    let output = run(input, options(1000, Ranges(vec![Range::Between(2, 2)])));
    assert_eq!(output, "aa  cc\n1   3\n");

    let output = run(input, options(1000, Ranges(vec![Range::From(2)])));
    assert_eq!(output, "aa\n1\n");

    let output = run(input, options(1000, Ranges(vec![Range::To(2)])));
    assert_eq!(output, "cc\n3\n");

    let output = run(
        input,
        options(1000, Ranges(vec![Range::Between(1, 1), Range::Between(3, 3)])),
    );
    assert_eq!(output, "bb\n2\n");
}

#[test]
fn lines_opt() {
    let output = run("1 1\naaaa aaaa\n", options(1, Ranges::new()));
    assert_eq!(output, "1  1\naaaa  aaaa\n");
}

#[test]
fn overflow() {
    let input = "a a aaaaaaaaaaa a\n".repeat(10) + "bbbbbb bb b b\n";
    let expected = "a  a  aaaaaaaaaaa  a\n".repeat(10) + "bbbbbb  bb  b      b\n";
    let output = run(&input, options(1, Ranges::new()));
    assert_eq!(output, expected);
}

#[test]
fn uncompressed_widths_fit_the_longest_field() {
    let mut opts = options(0, Ranges::new());
    opts.ratio = Ratio { num: 0, den: 1 };
    let output = run("a bbbb x\nccc d x\nee f x\n", opts);
    assert_eq!(output, "a    bbbb  x\nccc  d     x\nee   f     x\n");
}

#[test]
fn uncompressed_widths_repeat() {
    let input = "12345 1\n1 12\n1 1\n1 1\n1 1\n";
    let mut first = options(0, Ranges::new());
    first.ratio = Ratio { num: 0, den: 1 };
    let mut second = options(0, Ranges::new());
    second.ratio = Ratio { num: 0, den: 1 };
    let a = run(input, first);
    let b = run(input, second);
    assert_eq!(a, b);
    assert_eq!(a, "12345  1\n1      12\n1      1\n1      1\n1      1\n");
}

#[test]
fn streaming_keeps_settled_widths() {
    let mut pipeline = Pipeline::new(options(1, Ranges::new()));
    let first = pipeline.push_line("1 1");
    assert_eq!(first, vec!["1  1".to_string()]);
    assert!(!pipeline.is_done());
    assert_eq!(pipeline.columns()[0].get_size(), 1);
    let second = pipeline.push_line("aaaa aaaa");
    assert_eq!(second, vec!["aaaa  aaaa".to_string()]);
    assert_eq!(pipeline.columns()[0].get_size(), 1);
    assert!(pipeline.finish().is_empty());
    assert!(pipeline.is_done());
}

#[test]
fn online_prints_while_measuring() {
    let mut opts = options(0, Ranges::new());
    opts.online = true;
    let mut pipeline = Pipeline::new(opts);
    assert_eq!(pipeline.push_line("a b"), vec!["a  b".to_string()]);
    assert_eq!(pipeline.push_line("ccc d"), vec!["ccc  d".to_string()]);
    assert!(pipeline.finish().is_empty());
}

#[test]
fn column_info_stops_the_rows() {
    let mut opts = options(2, Ranges::new());
    opts.print_info = true;
    let mut pipeline = Pipeline::new(opts);
    assert!(pipeline.push_line("aa b").is_empty());
    assert!(pipeline.push_line("a bbb").is_empty());
    assert!(pipeline.is_done());
    let columns = pipeline.columns();
    assert_eq!(columns.len(), 2);
    assert!(columns[0].has_info());
    assert_eq!(columns[0].min_value(), Some("a"));
    assert_eq!(columns[0].max_value(), Some("aa"));
    assert_eq!(columns[1].min_value(), Some("b"));
    assert_eq!(columns[1].max_value(), Some("bbb"));
    assert!(pipeline.push_line("x y").is_empty());
}

#[test]
fn include_truncate_and_delimiter() {
    let mut opts = options(1, Ranges::new());
    opts.include_cols = Some(Ranges(vec![Range::To(2)]));
    opts.truncate = Some(Ranges(vec![Range::From(1)]));
    opts.output_delim = "|".to_string();
    let output = run("ab cd ef\nabcdef cdefgh ef\n", opts);
    assert_eq!(output, "ab|cd\na…|cdefgh\n");
}

#[test]
fn ragged_rows() {
    let output = run("a\nb c\nd e f\n", options(1000, Ranges::new()));
    assert_eq!(output, "a\nb  c\nd  e  f\n");
}

#[test]
fn column_info_keeps_first_extremes() {
    let mut opts = options(0, Ranges::new());
    opts.print_info = true;
    let mut pipeline = Pipeline::new(opts);
    for line in ["bb x", "cc", "a y", "d zzz", "eee w"] {
        assert!(pipeline.push_line(line).is_empty());
    }
    assert!(pipeline.finish().is_empty());
    let columns = pipeline.columns();
    assert_eq!(columns[0].min_value(), Some("a"));
    assert_eq!(columns[0].max_value(), Some("eee"));
    assert_eq!(columns[1].min_value(), Some("x"));
    assert_eq!(columns[1].max_value(), Some("zzz"));
}
