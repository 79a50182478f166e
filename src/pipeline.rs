use vstd::prelude::*;

use crate::column::{byte_len, keep_longest, keep_shortest, Column, MeasureColumn, Ratio};
use crate::histogram::{
    chosen_width, count_at, lemma_counted_nonempty, lemma_total_nonneg, lemma_uncompressed_fits,
    lemma_uncompressed_is_longest, total,
};
use crate::parser::{span_texts, tokenize, Row, RowParser};
use crate::range::{Range, Ranges};
use crate::render::{
    cells_offset, is_shown, lemma_fitting_cells_aligned, print_row, render_row, shown_cells, zipped,
};

verus! {

/// How a run is configured.
#[derive(Debug)]
pub struct Options {
    /// Columns to truncate; `None` truncates none.
    pub truncate: Option<Ranges>,
    /// Compression ratio; zero sizes each column to its longest field.
    pub ratio: Ratio,
    /// Lines to measure before widths are settled; zero measures all.
    pub lines: usize,
    /// Columns to print; `None` prints all.
    pub include_cols: Option<Ranges>,
    /// Columns not to print; wins over `include_cols`.
    pub exclude_cols: Ranges,
    /// Characters that separate input fields.
    pub delim: String,
    /// Text put between output fields.
    pub output_delim: String,
    /// Keep empty fields between single delimiters.
    pub strict_delim: bool,
    /// Report the columns instead of printing rows.
    pub print_info: bool,
    /// Print rows while still measuring.
    pub online: bool,
}

pub open spec fn in_selection(r: Option<Ranges>, col: int, absent: bool) -> bool {
    match r {
        Some(rs) => rs.spec_any_contains(col),
        None => absent,
    }
}

/// Whether column `col` (numbered from one) is left out of the output.
pub open spec fn column_excluded(opts: Options, col: int) -> bool {
    !in_selection(opts.include_cols, col, true) || opts.exclude_cols.spec_any_contains(col)
}

/// Whether column `col` (numbered from one) is truncated.
pub open spec fn column_truncated(opts: Options, col: int) -> bool {
    in_selection(opts.truncate, col, false)
}

/// Whether selector set `r` takes the column at index `col`, numbered
/// `col + 1`.
fn selects(r: &Ranges, col: usize) -> (b: bool)
    ensures
        b == r.spec_any_contains(col + 1),
{
    if col < u32::MAX as usize {
        r.any_contains((col + 1) as u32)
    } else {
        // Past the selectors' integer range only an open-ended selector reaches.
        let mut i: usize = 0;
        while i < r.0.len()
            invariant
                i <= r.0@.len(),
                col >= u32::MAX,
                forall|j: int| 0 <= j < i ==> !(#[trigger] r.0@[j]).spec_contains(col + 1),
            decreases r.0@.len() - i,
        {
            match r.0[i] {
                Range::From(_) => {
                    return true;
                },
                _ => {},
            }
            i = i + 1;
        }
        false
    }
}

fn selection(r: &Option<Ranges>, col: usize, absent: bool) -> (b: bool)
    ensures
        b == in_selection(*r, col + 1, absent),
{
    match r {
        Some(rs) => selects(rs, col),
        None => absent,
    }
}

/// How many samples of length `len` column `j` holds, zero past the end.
pub open spec fn held(cols: Seq<MeasureColumn>, j: int, len: int) -> int {
    if j < cols.len() {
        count_at(cols[j].histogram(), len)
    } else {
        0
    }
}

/// How many samples column `j` holds, zero past the end.
pub open spec fn held_total(cols: Seq<MeasureColumn>, j: int) -> int {
    if j < cols.len() {
        total(cols[j].histogram())
    } else {
        0
    }
}

/// The shortest sample that column `j` keeps, none past the end.
pub open spec fn held_shortest(cols: Seq<MeasureColumn>, j: int) -> Option<Seq<char>> {
    if j < cols.len() {
        cols[j].shortest()
    } else {
        None
    }
}

/// The longest sample that column `j` keeps, none past the end.
pub open spec fn held_longest(cols: Seq<MeasureColumn>, j: int) -> Option<Seq<char>> {
    if j < cols.len() {
        cols[j].longest()
    } else {
        None
    }
}

/// Column `j` of `after` keeps the extremes that column `j` of `before` had,
/// updated with `fields[j]` when the row reaches that column.
pub open spec fn extremes_updated(
    before: Seq<MeasureColumn>,
    after: Seq<MeasureColumn>,
    fields: Seq<Seq<char>>,
    j: int,
) -> bool {
    if j < fields.len() {
        if after[j].collects_info() {
            &&& after[j].shortest() == keep_shortest(held_shortest(before, j), fields[j])
            &&& after[j].longest() == keep_longest(held_longest(before, j), fields[j])
        } else {
            &&& after[j].shortest() is None
            &&& after[j].longest() is None
        }
    } else {
        &&& after[j].shortest() == held_shortest(before, j)
        &&& after[j].longest() == held_longest(before, j)
    }
}

/// Adds the fields of `row` to the measured columns, creating the columns
/// that the row is the first to reach.
fn update_columns(
    columns: &mut Vec<MeasureColumn>,
    row: &Row,
    opts: &Options,
)
    requires
        forall|j: int|
            0 <= j < old(columns)@.len() ==> (#[trigger] old(columns)@[j]).wf() && total(
                old(columns)@[j].histogram(),
            ) < usize::MAX && old(columns)@[j].histogram().len() > 0,
    ensures
        final(columns)@.len() == if old(columns)@.len() < row.fields().len() {
            row.fields().len()
        } else {
            old(columns)@.len()
        },
        forall|j: int|
            0 <= j < final(columns)@.len() ==> {
                &&& (#[trigger] final(columns)@[j]).wf()
                &&& final(columns)@[j].histogram().len() > 0
                &&& total(final(columns)@[j].histogram()) == held_total(old(columns)@, j) + if j
                    < row.fields().len() {
                    1int
                } else {
                    0int
                }
                &&& forall|len: int|
                    #![trigger count_at(final(columns)@[j].histogram(), len)]
                    count_at(final(columns)@[j].histogram(), len) == held(old(columns)@, j, len)
                        + if j < row.fields().len() && byte_len(row.fields()[j]) == len {
                        1int
                    } else {
                        0int
                    }
                &&& extremes_updated(old(columns)@, final(columns)@, row.fields(), j)
            },
        forall|j: int|
            0 <= j < old(columns)@.len() ==> {
                &&& (#[trigger] final(columns)@[j]).excluded() == old(columns)@[j].excluded()
                &&& final(columns)@[j].truncated() == old(columns)@[j].truncated()
                &&& final(columns)@[j].collects_info() == old(columns)@[j].collects_info()
            },
        forall|j: int|
            old(columns)@.len() <= j < final(columns)@.len() ==> {
                &&& (#[trigger] final(columns)@[j]).excluded() == column_excluded(*opts, j + 1)
                &&& final(columns)@[j].truncated() == column_truncated(*opts, j + 1)
                &&& final(columns)@[j].collects_info() == opts.print_info
            },
{
    let ghost old_cols = columns@;
    let n = row.len();
    let m = columns.len();
    let common = if m < n {
        m
    } else {
        n
    };
    let mut i: usize = 0;
    while i < common
        invariant
            i <= common,
            common <= m == old_cols.len() == columns@.len(),
            common <= n == row.fields().len(),
            common == m || common == n,
            forall|j: int|
                0 <= j < m ==> (#[trigger] old_cols[j]).wf() && total(old_cols[j].histogram())
                    < usize::MAX && old_cols[j].histogram().len() > 0,
            forall|j: int|
                i <= j < m ==> #[trigger] columns@[j] == old_cols[j],
            forall|j: int|
                0 <= j < i ==> {
                    &&& (#[trigger] columns@[j]).wf()
                    &&& columns@[j].histogram().len() > 0
                    &&& total(columns@[j].histogram()) == total(old_cols[j].histogram()) + 1
                    &&& forall|len: int|
                        #![trigger count_at(columns@[j].histogram(), len)]
                        count_at(columns@[j].histogram(), len) == count_at(
                            old_cols[j].histogram(),
                            len,
                        ) + if byte_len(row.fields()[j]) == len {
                            1int
                        } else {
                            0int
                        }
                    &&& columns@[j].excluded() == old_cols[j].excluded()
                    &&& columns@[j].truncated() == old_cols[j].truncated()
                    &&& columns@[j].collects_info() == old_cols[j].collects_info()
                    &&& extremes_updated(old_cols, columns@, row.fields(), j)
                },
        decreases common - i,
    {
        let cell = row.field(i);
        let ghost prev = columns@;
        assert(prev[i as int] == old_cols[i as int]);
        columns[i].add_sample(cell);
        proof {
            lemma_total_nonneg(old_cols[i as int].histogram());
            lemma_counted_nonempty(columns@[i as int].histogram(), total(old_cols[i as int].histogram()));
            assert(forall|j: int| 0 <= j < m && j != i ==> columns@[j] == prev[j]);
            let c = columns@[i as int];
            let o = old_cols[i as int];
            assert(forall|len: int|
                #![trigger count_at(c.histogram(), len)]
                count_at(c.histogram(), len) == count_at(o.histogram(), len) + if byte_len(
                    row.fields()[i as int],
                ) == len {
                    1int
                } else {
                    0int
                });
        }
        i = i + 1;
    }
    while i < n
        invariant
            common <= i <= n == row.fields().len(),
            common == m || common == n,
            m == old_cols.len(),
            columns@.len() == if i < m {
                m
            } else {
                i
            },
            forall|j: int|
                0 <= j < common ==> {
                    &&& (#[trigger] columns@[j]).wf()
                    &&& columns@[j].histogram().len() > 0
                    &&& total(columns@[j].histogram()) == total(old_cols[j].histogram()) + 1
                    &&& forall|len: int|
                        #![trigger count_at(columns@[j].histogram(), len)]
                        count_at(columns@[j].histogram(), len) == count_at(
                            old_cols[j].histogram(),
                            len,
                        ) + if byte_len(row.fields()[j]) == len {
                            1int
                        } else {
                            0int
                        }
                    &&& columns@[j].excluded() == old_cols[j].excluded()
                    &&& columns@[j].truncated() == old_cols[j].truncated()
                    &&& columns@[j].collects_info() == old_cols[j].collects_info()
                    &&& extremes_updated(old_cols, columns@, row.fields(), j)
                },
            forall|j: int| common <= j < m ==> #[trigger] columns@[j] == old_cols[j],
            forall|j: int|
                m <= j < columns@.len() ==> {
                    &&& (#[trigger] columns@[j]).wf()
                    &&& columns@[j].histogram().len() > 0
                    &&& total(columns@[j].histogram()) == 1
                    &&& forall|len: int|
                        #![trigger count_at(columns@[j].histogram(), len)]
                        count_at(columns@[j].histogram(), len) == if byte_len(row.fields()[j])
                            == len {
                            1int
                        } else {
                            0int
                        }
                    &&& columns@[j].excluded() == column_excluded(*opts, j + 1)
                    &&& columns@[j].truncated() == column_truncated(*opts, j + 1)
                    &&& columns@[j].collects_info() == opts.print_info
                    &&& extremes_updated(old_cols, columns@, row.fields(), j)
                },
        decreases n - i,
    {
        let mut col = MeasureColumn::new(opts.print_info);
        let included = selection(&opts.include_cols, i, true);
        let excluded = selects(&opts.exclude_cols, i);
        let truncated = selection(&opts.truncate, i, false);
        col.set_excluded(!included || excluded);
        col.set_truncated(truncated);
        proof {
            assert forall|len: int| count_at(col.histogram(), len) == 0 by {}
            assert(total(col.histogram()) == 0);
        }
        col.add_sample(row.field(i));
        proof {
            lemma_counted_nonempty(col.histogram(), 0);
        }
        columns.push(col);
        i = i + 1;
    }
}

/// The fields of `line` under the options' delimiters.
pub open spec fn line_fields(opts: Options, line: Seq<char>) -> Seq<Seq<char>> {
    span_texts(line, tokenize(line, opts.delim@, opts.strict_delim))
}

/// The most fields that any of the rows has.
pub open spec fn widest(rows: Seq<Seq<Seq<char>>>) -> int
    decreases rows.len(),
{
    if rows.len() == 0 {
        0
    } else if widest(rows.drop_last()) < rows.last().len() {
        rows.last().len() as int
    } else {
        widest(rows.drop_last())
    }
}

/// How many rows have a field `j`.
pub open spec fn reaching(rows: Seq<Seq<Seq<char>>>, j: int) -> int
    decreases rows.len(),
{
    if rows.len() == 0 {
        0
    } else {
        reaching(rows.drop_last(), j) + if j < rows.last().len() {
            1int
        } else {
            0int
        }
    }
}

/// How many rows have a field `j` of `len` bytes.
pub open spec fn samples_of(rows: Seq<Seq<Seq<char>>>, j: int, len: int) -> int
    decreases rows.len(),
{
    if rows.len() == 0 {
        0
    } else {
        samples_of(rows.drop_last(), j, len) + if j < rows.last().len() && byte_len(rows.last()[j])
            == len {
            1int
        } else {
            0int
        }
    }
}

/// The first of the shortest fields `j` of `rows`, by length in bytes.
pub open spec fn first_shortest(rows: Seq<Seq<Seq<char>>>, j: int) -> Option<Seq<char>>
    decreases rows.len(),
{
    if rows.len() == 0 {
        None
    } else if j < rows.last().len() {
        keep_shortest(first_shortest(rows.drop_last(), j), rows.last()[j])
    } else {
        first_shortest(rows.drop_last(), j)
    }
}

/// The first of the longest fields `j` of `rows`, by length in bytes.
pub open spec fn first_longest(rows: Seq<Seq<Seq<char>>>, j: int) -> Option<Seq<char>>
    decreases rows.len(),
{
    if rows.len() == 0 {
        None
    } else if j < rows.last().len() {
        keep_longest(first_longest(rows.drop_last(), j), rows.last()[j])
    } else {
        first_longest(rows.drop_last(), j)
    }
}

/// `cols` hold exactly the measurements of `rows`: one column per field
/// position, each counting the lengths of its fields, with the options'
/// choices for its column number.
pub open spec fn measures(cols: Seq<MeasureColumn>, rows: Seq<Seq<Seq<char>>>, opts: Options) -> bool {
    &&& cols.len() == widest(rows)
    &&& forall|j: int|
        0 <= j < cols.len() ==> {
            &&& (#[trigger] cols[j]).wf()
            &&& cols[j].histogram().len() > 0
            &&& total(cols[j].histogram()) == reaching(rows, j)
            &&& forall|len: int|
                #![trigger count_at(cols[j].histogram(), len)]
                count_at(cols[j].histogram(), len) == samples_of(rows, j, len)
            &&& cols[j].excluded() == column_excluded(opts, j + 1)
            &&& cols[j].truncated() == column_truncated(opts, j + 1)
            &&& cols[j].collects_info() == opts.print_info
            &&& cols[j].shortest() == if opts.print_info {
                first_shortest(rows, j)
            } else {
                None
            }
            &&& cols[j].longest() == if opts.print_info {
                first_longest(rows, j)
            } else {
                None
            }
        }
}

/// `cols` are the measured columns `from` with their widths settled.
pub open spec fn settles(cols: Seq<Column>, from: Seq<MeasureColumn>, ratio: Ratio) -> bool {
    &&& cols.len() == from.len()
    &&& forall|j: int|
        0 <= j < cols.len() ==> {
            &&& (#[trigger] cols[j]).size() == chosen_width(
                from[j].histogram(),
                ratio.num as int,
                ratio.den as int,
            )
            &&& cols[j].excluded() == from[j].excluded()
            &&& cols[j].truncated() == from[j].truncated()
            &&& cols[j].collects_info() == from[j].collects_info()
            &&& cols[j].shortest() == from[j].shortest()
            &&& cols[j].longest() == from[j].longest()
        }
}

/// Measuring has to stop after `n` lines: the configured number is reached,
/// or the line count cannot grow further.
pub open spec fn window_closed(opts: Options, n: int) -> bool {
    (opts.lines != 0 && n >= opts.lines) || n >= usize::MAX
}

pub open spec fn texts(v: Seq<String>) -> Seq<Seq<char>> {
    Seq::new(v.len(), |i: int| v[i]@)
}

/// The printed forms of `rows`.
pub open spec fn render_rows(cols: Seq<Column>, rows: Seq<Seq<Seq<char>>>, sep: Seq<char>) -> Seq<
    Seq<char>,
> {
    Seq::new(rows.len(), |i: int| render_row(cols, rows[i], sep))
}

proof fn lemma_reaching_bounded(rows: Seq<Seq<Seq<char>>>, j: int)
    ensures
        0 <= reaching(rows, j) <= rows.len(),
    decreases rows.len(),
{
    if rows.len() > 0 {
        lemma_reaching_bounded(rows.drop_last(), j);
    }
}

proof fn lemma_widest_reached(rows: Seq<Seq<Seq<char>>>)
    ensures
        widest(rows) >= 0,
        forall|i: int| 0 <= i < rows.len() ==> (#[trigger] rows[i]).len() <= widest(rows),
    decreases rows.len(),
{
    if rows.len() > 0 {
        lemma_widest_reached(rows.drop_last());
        assert forall|i: int| 0 <= i < rows.len() implies (#[trigger] rows[i]).len() <= widest(
            rows,
        ) by {
            if i < rows.len() - 1 {
                assert(rows[i] == rows.drop_last()[i]);
            }
        }
    }
}

proof fn lemma_beyond_widest(rows: Seq<Seq<Seq<char>>>, j: int)
    requires
        j >= widest(rows),
    ensures
        reaching(rows, j) == 0,
        forall|len: int| #[trigger] samples_of(rows, j, len) == 0,
        first_shortest(rows, j) is None,
        first_longest(rows, j) is None,
    decreases rows.len(),
{
    if rows.len() > 0 {
        lemma_beyond_widest(rows.drop_last(), j);
        assert forall|len: int| #[trigger] samples_of(rows, j, len) == 0 by {
            assert(samples_of(rows.drop_last(), j, len) == 0);
        }
    }
}

/// Measuring one more row: what `update_columns` promises keeps `measures`.
proof fn lemma_measures_step(
    old_cols: Seq<MeasureColumn>,
    cols: Seq<MeasureColumn>,
    rows0: Seq<Seq<Seq<char>>>,
    fields: Seq<Seq<char>>,
    opts: Options,
)
    requires
        measures(old_cols, rows0, opts),
        cols.len() == if old_cols.len() < fields.len() {
            fields.len() as int
        } else {
            old_cols.len() as int
        },
        forall|j: int|
            0 <= j < cols.len() ==> {
                &&& (#[trigger] cols[j]).wf()
                &&& cols[j].histogram().len() > 0
                &&& total(cols[j].histogram()) == held_total(old_cols, j) + if j < fields.len() {
                    1int
                } else {
                    0int
                }
                &&& forall|len: int|
                    #![trigger count_at(cols[j].histogram(), len)]
                    count_at(cols[j].histogram(), len) == held(old_cols, j, len) + if j
                        < fields.len() && byte_len(fields[j]) == len {
                        1int
                    } else {
                        0int
                    }
                &&& extremes_updated(old_cols, cols, fields, j)
            },
        forall|j: int|
            0 <= j < old_cols.len() ==> {
                &&& (#[trigger] cols[j]).excluded() == old_cols[j].excluded()
                &&& cols[j].truncated() == old_cols[j].truncated()
                &&& cols[j].collects_info() == old_cols[j].collects_info()
            },
        forall|j: int|
            old_cols.len() <= j < cols.len() ==> {
                &&& (#[trigger] cols[j]).excluded() == column_excluded(opts, j + 1)
                &&& cols[j].truncated() == column_truncated(opts, j + 1)
                &&& cols[j].collects_info() == opts.print_info
            },
    ensures
        measures(cols, rows0.push(fields), opts),
{
    let rows = rows0.push(fields);
    assert(rows.drop_last() =~= rows0);
    assert forall|j: int| 0 <= j < cols.len() implies {
        &&& (#[trigger] cols[j]).wf()
        &&& cols[j].histogram().len() > 0
        &&& total(cols[j].histogram()) == reaching(rows, j)
        &&& forall|len: int|
            #![trigger count_at(cols[j].histogram(), len)]
            count_at(cols[j].histogram(), len) == samples_of(rows, j, len)
        &&& cols[j].excluded() == column_excluded(opts, j + 1)
        &&& cols[j].truncated() == column_truncated(opts, j + 1)
        &&& cols[j].collects_info() == opts.print_info
        &&& cols[j].shortest() == if opts.print_info {
            first_shortest(rows, j)
        } else {
            None
        }
        &&& cols[j].longest() == if opts.print_info {
            first_longest(rows, j)
        } else {
            None
        }
    } by {
        if j >= old_cols.len() {
            lemma_beyond_widest(rows0, j);
        }
        assert(first_shortest(rows, j) == if j < fields.len() {
            keep_shortest(first_shortest(rows0, j), fields[j])
        } else {
            first_shortest(rows0, j)
        });
        assert(first_longest(rows, j) == if j < fields.len() {
            keep_longest(first_longest(rows0, j), fields[j])
        } else {
            first_longest(rows0, j)
        });
        assert forall|len: int| #[trigger] count_at(cols[j].histogram(), len) == samples_of(rows, j, len) by {
            if j >= old_cols.len() {
                assert(samples_of(rows0, j, len) == 0);
            }
        }
    }
}

proof fn lemma_sample_counted(rows: Seq<Seq<Seq<char>>>, i: int, j: int)
    requires
        0 <= i < rows.len(),
        0 <= j < rows[i].len(),
    ensures
        samples_of(rows, j, byte_len(rows[i][j])) >= 1,
    decreases rows.len(),
{
    if i < rows.len() - 1 {
        lemma_sample_counted(rows.drop_last(), i, j);
        assert(rows.drop_last()[i] == rows[i]);
    }
    lemma_samples_nonneg(rows.drop_last(), j, byte_len(rows[i][j]));
}

proof fn lemma_samples_nonneg(rows: Seq<Seq<Seq<char>>>, j: int, len: int)
    ensures
        samples_of(rows, j, len) >= 0,
    decreases rows.len(),
{
    if rows.len() > 0 {
        lemma_samples_nonneg(rows.drop_last(), j, len);
    }
}

proof fn lemma_sample_seen(rows: Seq<Seq<Seq<char>>>, j: int, len: int)
    requires
        samples_of(rows, j, len) > 0,
    ensures
        exists|i: int| 0 <= i < rows.len() && j < rows[i].len() && byte_len(#[trigger] rows[i][j]) == len,
    decreases rows.len(),
{
    let last = rows.len() - 1;
    if !(j < rows[last].len() && byte_len(rows[last][j]) == len) {
        lemma_sample_seen(rows.drop_last(), j, len);
        let i = choose|i: int|
            0 <= i < rows.drop_last().len() && j < rows.drop_last()[i].len() && byte_len(
                #[trigger] rows.drop_last()[i][j],
            ) == len;
        assert(rows[i] == rows.drop_last()[i]);
    }
}

/// With compression off, once widths are settled every measured field fits
/// its column: no field of a measured row is longer than its column's width.
pub proof fn lemma_uncompressed_fields_fit(
    measured: Seq<MeasureColumn>,
    settled: Seq<Column>,
    rows: Seq<Seq<Seq<char>>>,
    opts: Options,
    i: int,
    j: int,
)
    requires
        measures(measured, rows, opts),
        settles(settled, measured, opts.ratio),
        opts.ratio.num == 0,
        0 <= i < rows.len(),
        0 <= j < rows[i].len(),
    ensures
        j < settled.len(),
        byte_len(rows[i][j]) <= settled[j].size(),
{
    lemma_widest_reached(rows);
    lemma_sample_counted(rows, i, j);
    let h = measured[j].histogram();
    measured[j].lemma_wf_histogram();
    assert(count_at(h, byte_len(rows[i][j])) == samples_of(rows, j, byte_len(rows[i][j])));
    lemma_uncompressed_fits(h, opts.ratio.den as int, byte_len(rows[i][j]));
}

/// With compression off, each settled width is the longest length among the
/// measured fields of its column, whatever the other lengths are: some
/// measured field has exactly that length.
pub proof fn lemma_uncompressed_width_is_longest(
    measured: Seq<MeasureColumn>,
    settled: Seq<Column>,
    rows: Seq<Seq<Seq<char>>>,
    opts: Options,
    j: int,
)
    requires
        measures(measured, rows, opts),
        settles(settled, measured, opts.ratio),
        opts.ratio.num == 0,
        0 <= j < settled.len(),
    ensures
        exists|i: int|
            0 <= i < rows.len() && j < rows[i].len() && byte_len(#[trigger] rows[i][j])
                == settled[j].size(),
        forall|i: int|
            0 <= i < rows.len() && j < rows[i].len() ==> byte_len(#[trigger] rows[i][j])
                <= settled[j].size(),
{
    let h = measured[j].histogram();
    measured[j].lemma_wf_histogram();
    lemma_uncompressed_is_longest(h, opts.ratio.den as int);
    let w = chosen_width(h, 0, opts.ratio.den as int);
    assert(count_at(h, w) == samples_of(rows, j, w));
    lemma_sample_seen(rows, j, w);
    assert forall|i: int| 0 <= i < rows.len() && j < rows[i].len() implies byte_len(
        #[trigger] rows[i][j],
    ) <= settled[j].size() by {
        lemma_uncompressed_fields_fit(measured, settled, rows, opts, i, j);
    }
}

proof fn lemma_filter_keeps_all(s: Seq<(Column, Seq<char>)>)
    requires
        forall|i: int| 0 <= i < s.len() ==> is_shown()(#[trigger] s[i]),
    ensures
        s.filter(is_shown()) == s,
    decreases s.len(),
{
    reveal(Seq::filter);
    if s.len() > 0 {
        assert forall|i: int| 0 <= i < s.drop_last().len() implies is_shown()(
            #[trigger] s.drop_last()[i],
        ) by {
            assert(s.drop_last()[i] == s[i]);
        }
        lemma_filter_keeps_all(s.drop_last());
        assert(s.drop_last().push(s.last()) =~= s);
    }
}

/// With compression off and no column excluded, measured rows print aligned:
/// in a row whose fields count as many characters as bytes, field `j`
/// starts after the settled widths of the earlier columns plus one output
/// delimiter after each.
pub proof fn lemma_uncompressed_rows_aligned(
    measured: Seq<MeasureColumn>,
    settled: Seq<Column>,
    rows: Seq<Seq<Seq<char>>>,
    opts: Options,
    i: int,
    j: int,
)
    requires
        measures(measured, rows, opts),
        settles(settled, measured, opts.ratio),
        opts.ratio.num == 0,
        forall|m: int| 0 <= m < settled.len() ==> !(#[trigger] settled[m]).excluded(),
        0 <= i < rows.len(),
        0 <= j < rows[i].len(),
        forall|m: int|
            0 <= m < rows[i].len() ==> (#[trigger] rows[i][m]).len() == byte_len(rows[i][m]),
    ensures
        ({
            let sep = opts.output_delim@;
            let at = cells_offset(zipped(settled, rows[i]), j, sep.len() as int);
            &&& at + rows[i][j].len() <= render_row(settled, rows[i], sep).len()
            &&& render_row(settled, rows[i], sep).subrange(at, at + rows[i][j].len())
                == rows[i][j]
        }),
{
    let sep = opts.output_delim@;
    let cells = zipped(settled, rows[i]);
    lemma_widest_reached(rows);
    assert(rows[i].len() <= settled.len());
    assert forall|m: int| 0 <= m < cells.len() implies is_shown()(#[trigger] cells[m]) by {
        assert(cells[m].0 == settled[m]);
    }
    lemma_filter_keeps_all(cells);
    assert(shown_cells(settled, rows[i]) == cells);
    assert forall|m: int| 0 <= m < cells.len() - 1 implies byte_len((#[trigger] cells[m]).1)
        <= cells[m].0.size() && cells[m].1.len() == byte_len(cells[m].1) by {
        lemma_uncompressed_fields_fit(measured, settled, rows, opts, i, m);
        assert(cells[m] == (settled[m], rows[i][m]));
    }
    lemma_fitting_cells_aligned(cells, sep, true, j);
    assert(cells[j].1 == rows[i][j]);
}

/// Settles the width of every measured column.
fn settle(from: &Vec<MeasureColumn>, ratio: Ratio) -> (r: Vec<Column>)
    requires
        ratio.den > 0,
        forall|j: int|
            0 <= j < from@.len() ==> (#[trigger] from@[j]).wf() && from@[j].histogram().len() > 0,
    ensures
        settles(r@, from@, ratio),
{
    let mut r: Vec<Column> = Vec::new();
    let mut i: usize = 0;
    while i < from.len()
        invariant
            i <= from@.len(),
            ratio.den > 0,
            forall|j: int|
                0 <= j < from@.len() ==> (#[trigger] from@[j]).wf() && from@[j].histogram().len()
                    > 0,
            settles(r@, from@.take(i as int), ratio),
        decreases from@.len() - i,
    {
        let c = from[i].calculate_size(ratio);
        r.push(c);
        i = i + 1;
    }
    assert(from@.take(i as int) =~= from@);
    r
}

/// The stage of a run.
#[derive(Debug, Clone, Copy, PartialEq, Eq, Structural)]
pub enum Phase {
    /// Lines are measured, and kept unless the run is online.
    Measuring,
    /// Widths are settled; each line is printed as it comes.
    Streaming,
    /// Nothing more is printed.
    Done,
}

enum ProcessingState {
    Measuring { lines_measured: usize, backlog: Vec<Row> },
    ProcessInput,
    Done,
}

/// The reformatting of a stream of lines: the caller hands in lines and
/// prints the lines handed back.
pub struct Pipeline {
    opts: Options,
    parser: RowParser,
    state: ProcessingState,
    measure_columns: Vec<MeasureColumn>,
    columns: Vec<Column>,
    measured: Ghost<Seq<Seq<Seq<char>>>>,
}

pub open spec fn backlog_fields(b: Seq<Row>) -> Seq<Seq<Seq<char>>> {
    Seq::new(b.len(), |i: int| b[i].fields())
}

impl Pipeline {
    pub closed spec fn options(&self) -> Options {
        self.opts
    }

    pub closed spec fn phase(&self) -> Phase {
        match self.state {
            ProcessingState::Measuring { .. } => Phase::Measuring,
            ProcessingState::ProcessInput => Phase::Streaming,
            ProcessingState::Done => Phase::Done,
        }
    }

    /// The fields of the lines measured so far.
    pub closed spec fn measured(&self) -> Seq<Seq<Seq<char>>> {
        self.measured@
    }

    pub closed spec fn measuring_columns(&self) -> Seq<MeasureColumn> {
        self.measure_columns@
    }

    /// The columns that rows are printed with.
    pub closed spec fn settled(&self) -> Seq<Column> {
        self.columns@
    }

    pub closed spec fn wf(&self) -> bool {
        &&& self.opts.ratio.den > 0
        &&& self.parser.delimiters() == self.opts.delim@
        &&& self.parser.strict() == self.opts.strict_delim
        &&& measures(self.measure_columns@, self.measured@, self.opts)
        &&& match self.state {
            ProcessingState::Measuring { lines_measured, backlog } => {
                &&& lines_measured == self.measured@.len()
                &&& !window_closed(self.opts, lines_measured as int)
                &&& if self.opts.online {
                    &&& backlog@.len() == 0
                    &&& settles(self.columns@, self.measure_columns@, self.opts.ratio)
                } else {
                    backlog_fields(backlog@) == self.measured@
                }
            },
            _ => settles(self.columns@, self.measure_columns@, self.opts.ratio),
        }
    }

    pub fn new(opts: Options) -> (r: Pipeline)
        requires
            opts.ratio.den > 0,
        ensures
            r.wf(),
            r.options() == opts,
            r.phase() == Phase::Measuring,
            r.measured().len() == 0,
            r.measuring_columns().len() == 0,
    {
        let parser = RowParser::new(opts.delim.as_str(), opts.strict_delim);
        let r = Pipeline {
            opts,
            parser,
            state: ProcessingState::Measuring { lines_measured: 0, backlog: Vec::new() },
            measure_columns: Vec::new(),
            columns: Vec::new(),
            measured: Ghost(Seq::empty()),
        };
        assert(backlog_fields(Seq::<Row>::empty()) =~= Seq::<Seq<Seq<char>>>::empty());
        r
    }

    pub fn is_done(&self) -> (r: bool)
        ensures
            r == (self.phase() == Phase::Done),
    {
        match self.state {
            ProcessingState::Done => true,
            _ => false,
        }
    }

    /// The columns that rows are printed with.
    pub fn columns(&self) -> (r: &Vec<Column>)
        ensures
            r@ == self.settled(),
    {
        &self.columns
    }

    /// Prints `rows` with the settled columns.
    fn print_rows(&self, rows: &Vec<Row>, out: &mut Vec<String>)
        ensures
            texts(final(out)@) == texts(old(out)@) + render_rows(
                self.columns@,
                backlog_fields(rows@),
                self.opts.output_delim@,
            ),
    {
        let ghost start = texts(out@);
        let mut i: usize = 0;
        while i < rows.len()
            invariant
                i <= rows@.len(),
                texts(out@) == start + render_rows(
                    self.columns@,
                    backlog_fields(rows@).take(i as int),
                    self.opts.output_delim@,
                ),
            decreases rows@.len() - i,
        {
            let line = print_row(&self.columns, &rows[i], self.opts.output_delim.as_str());
            let ghost before = out@;
            out.push(line);
            proof {
                let bf = backlog_fields(rows@);
                let sep = self.opts.output_delim@;
                let c = self.columns@;
                assert(texts(out@) =~= texts(before).push(line@));
                assert(render_rows(c, bf.take(i + 1), sep) =~= render_rows(c, bf.take(i as int), sep).push(
                    render_row(c, bf[i as int], sep),
                ));
                assert(texts(out@) =~= start + render_rows(c, bf.take(i + 1), sep));
            }
            i = i + 1;
        }
        assert(backlog_fields(rows@).take(i as int) =~= backlog_fields(rows@));
    }

    /// Once measuring ends, prints the rows kept so far with the settled
    /// widths, unless the columns are to be reported instead.
    fn print_backlog(&mut self, backlog: Vec<Row>, out: &mut Vec<String>)
        requires
            settles(old(self).columns@, old(self).measure_columns@, old(self).opts.ratio),
        ensures
            final(self).opts == old(self).opts,
            final(self).parser == old(self).parser,
            final(self).measure_columns == old(self).measure_columns,
            final(self).measured == old(self).measured,
            final(self).columns == old(self).columns,
            final(self).opts.print_info ==> final(self).state is Done && texts(final(out)@)
                == texts(old(out)@),
            !final(self).opts.print_info ==> final(self).state is ProcessInput && texts(
                final(out)@,
            ) == texts(old(out)@) + render_rows(
                final(self).columns@,
                backlog_fields(backlog@),
                final(self).opts.output_delim@,
            ),
    {
        if self.opts.print_info {
            self.state = ProcessingState::Done;
        } else {
            self.print_rows(&backlog, out);
            self.state = ProcessingState::ProcessInput;
        }
    }

    /// Takes the next input line; returns the lines to print, in order.
    pub fn push_line(&mut self, line: &str) -> (r: Vec<String>)
        requires
            old(self).wf(),
        ensures
            final(self).wf(),
            final(self).options() == old(self).options(),
            measures(final(self).measuring_columns(), final(self).measured(), final(self).options()),
            old(self).phase() == Phase::Done ==> final(self).phase() == Phase::Done && r@.len()
                == 0,
            old(self).phase() == Phase::Streaming ==> {
                &&& final(self).phase() == Phase::Streaming
                &&& final(self).settled() == old(self).settled()
                &&& texts(r@) == seq![
                    render_row(
                        old(self).settled(),
                        line_fields(old(self).options(), line@),
                        old(self).options().output_delim@,
                    ),
                ]
            },
            old(self).phase() == Phase::Measuring ==> {
                let opts = old(self).options();
                let rows = old(self).measured().push(line_fields(opts, line@));
                let shown_now = if opts.online {
                    seq![
                        render_row(
                            final(self).settled(),
                            line_fields(opts, line@),
                            opts.output_delim@,
                        ),
                    ]
                } else {
                    Seq::<Seq<char>>::empty()
                };
                &&& final(self).measured() == rows
                &&& opts.online ==> settles(
                    final(self).settled(),
                    final(self).measuring_columns(),
                    opts.ratio,
                )
                &&& if window_closed(opts, rows.len() as int) {
                    &&& settles(
                        final(self).settled(),
                        final(self).measuring_columns(),
                        opts.ratio,
                    )
                    &&& final(self).phase() == if opts.print_info {
                        Phase::Done
                    } else {
                        Phase::Streaming
                    }
                    &&& texts(r@) == if opts.print_info || opts.online {
                        shown_now
                    } else {
                        render_rows(final(self).settled(), rows, opts.output_delim@)
                    }
                } else {
                    &&& final(self).phase() == Phase::Measuring
                    &&& texts(r@) == shown_now
                }
            },
    {
        let mut out: Vec<String> = Vec::new();
        let mut state = ProcessingState::Done;
        std::mem::swap(&mut self.state, &mut state);
        match state {
            ProcessingState::Measuring { lines_measured, mut backlog } => {
                let mut row = Row::new();
                self.parser.parse_into(&mut row, line);
                let ghost rows0 = self.measured@;
                let ghost rows = rows0.push(row.fields());
                proof {
                    assert forall|j: int|
                        0 <= j < self.measure_columns@.len() implies total(
                            (#[trigger] self.measure_columns@[j]).histogram(),
                        ) < usize::MAX by {
                        lemma_reaching_bounded(rows0, j);
                    }
                }
                let ghost old_cols = self.measure_columns@;
                update_columns(&mut self.measure_columns, &row, &self.opts);
                self.measured = Ghost(rows);
                proof {
                    assert(rows.drop_last() =~= rows0);
                    lemma_measures_step(old_cols, self.measure_columns@, rows0, row.fields(), self.opts);
                }
                if self.opts.online {
                    self.columns = settle(&self.measure_columns, self.opts.ratio);
                    let printed = print_row(&self.columns, &row, self.opts.output_delim.as_str());
                    out.push(printed);
                } else {
                    let ghost b0 = backlog@;
                    backlog.push(row);
                    assert(backlog_fields(backlog@) =~= backlog_fields(b0).push(row.fields()));
                }
                let count = lines_measured + 1;
                // A count that cannot grow any further ends measuring too.
                if (self.opts.lines != 0 && count >= self.opts.lines) || count == usize::MAX {
                    if !self.opts.online {
                        self.columns = settle(&self.measure_columns, self.opts.ratio);
                    }
                    self.print_backlog(backlog, &mut out);
                } else {
                    self.state = ProcessingState::Measuring { lines_measured: count, backlog };
                }
            },
            ProcessingState::ProcessInput => {
                let mut row = Row::new();
                self.parser.parse_into(&mut row, line);
                let printed = print_row(&self.columns, &row, self.opts.output_delim.as_str());
                out.push(printed);
                self.state = ProcessingState::ProcessInput;
            },
            ProcessingState::Done => {},
        }
        out
    }

    /// Ends the input; returns the lines still to print, in order.
    pub fn finish(&mut self) -> (r: Vec<String>)
        requires
            old(self).wf(),
        ensures
            final(self).wf(),
            final(self).options() == old(self).options(),
            measures(final(self).measuring_columns(), final(self).measured(), final(self).options()),
            final(self).phase() == Phase::Done,
            old(self).phase() != Phase::Measuring ==> r@.len() == 0 && final(self).settled()
                == old(self).settled(),
            old(self).phase() == Phase::Measuring ==> {
                let opts = old(self).options();
                &&& final(self).measured() == old(self).measured()
                &&& settles(final(self).settled(), final(self).measuring_columns(), opts.ratio)
                &&& texts(r@) == if opts.print_info || opts.online {
                    Seq::<Seq<char>>::empty()
                } else {
                    render_rows(final(self).settled(), old(self).measured(), opts.output_delim@)
                }
            },
    {
        let mut out: Vec<String> = Vec::new();
        let mut state = ProcessingState::Done;
        std::mem::swap(&mut self.state, &mut state);
        match state {
            ProcessingState::Measuring { backlog, .. } => {
                self.columns = settle(&self.measure_columns, self.opts.ratio);
                self.print_backlog(backlog, &mut out);
                self.state = ProcessingState::Done;
            },
            _ => {},
        }
        out
    }
}

} // verus!
