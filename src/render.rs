use vstd::prelude::*;

use crate::column::{byte_len, cell_overflow, cell_text, Column};
use crate::parser::Row;
use crate::utils::first_last_iter;

verus! {

/// The columns paired with the fields of a row, as far as both reach.
pub open spec fn zipped(cols: Seq<Column>, fields: Seq<Seq<char>>) -> Seq<(Column, Seq<char>)> {
    Seq::new(
        if cols.len() < fields.len() {
            cols.len()
        } else {
            fields.len()
        },
        |i: int| (cols[i], fields[i]),
    )
}

pub open spec fn is_shown() -> spec_fn((Column, Seq<char>)) -> bool {
    |x: (Column, Seq<char>)| !x.0.excluded()
}

/// The cells of a row that are printed: those whose column is not excluded.
pub open spec fn shown_cells(cols: Seq<Column>, fields: Seq<Seq<char>>) -> Seq<(Column, Seq<char>)> {
    zipped(cols, fields).filter(is_shown())
}

/// The text of `cells`, separated by `sep`, with `overflow` carried into the
/// first of them; the last cell is written as it is.
pub open spec fn render_cells(
    cells: Seq<(Column, Seq<char>)>,
    overflow: int,
    sep: Seq<char>,
    first: bool,
) -> Seq<char>
    decreases cells.len(),
{
    if cells.len() == 0 {
        Seq::empty()
    } else {
        let c = cells[0].0;
        let last = cells.len() == 1;
        (if first {
            Seq::empty()
        } else {
            sep
        }) + cell_text(c.size(), c.truncated(), cells[0].1, overflow, last) + render_cells(
            cells.drop_first(),
            cell_overflow(c.size(), c.truncated(), cells[0].1, overflow, last),
            sep,
            false,
        )
    }
}

/// The printed form of a row, without its line end.
pub open spec fn render_row(cols: Seq<Column>, fields: Seq<Seq<char>>, sep: Seq<char>) -> Seq<char> {
    render_cells(shown_cells(cols, fields), 0, sep, true)
}

/// Where cell `k` starts in rendered text when every earlier cell fills its
/// column exactly: the widths of the earlier cells plus one separator after
/// each.
pub open spec fn cells_offset(cells: Seq<(Column, Seq<char>)>, k: int, sep_len: int) -> int
    decreases k,
{
    if k <= 0 || cells.len() == 0 {
        0
    } else {
        cells[0].0.size() + sep_len + cells_offset(cells.drop_first(), k - 1, sep_len)
    }
}

proof fn lemma_offset_nonneg(cells: Seq<(Column, Seq<char>)>, k: int, sep_len: int)
    requires
        sep_len >= 0,
    ensures
        cells_offset(cells, k, sep_len) >= 0,
    decreases k,
{
    if k > 0 && cells.len() > 0 {
        cells[0].0.lemma_size_bounded();
        lemma_offset_nonneg(cells.drop_first(), k - 1, sep_len);
    }
}

/// Every cell but the last fits its column, and counts as many characters
/// as bytes.
pub open spec fn cells_fit(cells: Seq<(Column, Seq<char>)>) -> bool {
    forall|k: int|
        0 <= k < cells.len() - 1 ==> byte_len((#[trigger] cells[k]).1) <= cells[k].0.size()
            && cells[k].1.len() == byte_len(cells[k].1)
}

/// When every cell but the last fits its column, no overflow is carried and
/// each cell starts at the sum of the earlier widths and separators.
pub proof fn lemma_fitting_cells_aligned(
    cells: Seq<(Column, Seq<char>)>,
    sep: Seq<char>,
    first: bool,
    k: int,
)
    requires
        cells_fit(cells),
        0 <= k < cells.len(),
    ensures
        ({
            let lead = if first {
                0
            } else {
                sep.len() as int
            };
            let at = lead + cells_offset(cells, k, sep.len() as int);
            &&& at + cells[k].1.len() <= render_cells(cells, 0, sep, first).len()
            &&& render_cells(cells, 0, sep, first).subrange(at, at + cells[k].1.len())
                == cells[k].1
        }),
    decreases cells.len(),
{
    let c = cells[0].0;
    let cell = cells[0].1;
    let last = cells.len() == 1;
    let lead_text = if first {
        Seq::<char>::empty()
    } else {
        sep
    };
    let text = cell_text(c.size(), c.truncated(), cell, 0, last);
    let rest = cells.drop_first();
    c.lemma_size_bounded();
    if !last {
        assert(byte_len(cell) <= c.size() && cell.len() == byte_len(cell)) by {
            assert(cells[0] == (c, cell));
        }
        assert(cell_overflow(c.size(), c.truncated(), cell, 0, last) == 0);
        assert(text.len() == c.size());
        assert forall|m: int| 0 <= m < rest.len() - 1 implies byte_len((#[trigger] rest[m]).1)
            <= rest[m].0.size() && rest[m].1.len() == byte_len(rest[m].1) by {
            assert(rest[m] == cells[m + 1]);
        }
    }
    let whole = render_cells(cells, 0, sep, first);
    assert(whole == lead_text + text + render_cells(
        rest,
        cell_overflow(c.size(), c.truncated(), cell, 0, last),
        sep,
        false,
    ));
    if k == 0 {
        assert(text.subrange(0, cell.len() as int) =~= cell);
        assert(whole.subrange(lead_text.len() as int, (lead_text.len() + cell.len()) as int) =~= cell);
    } else {
        lemma_fitting_cells_aligned(rest, sep, false, k - 1);
        lemma_offset_nonneg(rest, k - 1, sep.len() as int);
        assert(rest[k - 1] == cells[k]);
        let tail = render_cells(rest, 0, sep, false);
        let at = sep.len() + cells_offset(rest, k - 1, sep.len() as int);
        let shift = (lead_text.len() + text.len()) as int;
        assert(!last);
        assert(whole == lead_text + text + tail);
        assert(whole =~= (lead_text + text) + tail);
        assert((lead_text + text).len() == shift);
        assert(at + cells[k].1.len() <= tail.len());
        assert(whole.subrange(shift + at, shift + at + cells[k].1.len()) =~= tail.subrange(
            at,
            at + cells[k].1.len(),
        ));
        assert(cells_offset(cells, k, sep.len() as int) == c.size() + sep.len() + cells_offset(
            rest,
            k - 1,
            sep.len() as int,
        ));
    }
}

pub open spec fn cells_view(cols: Seq<Column>, shown: Seq<(usize, &str)>) -> Seq<(Column, Seq<char>)> {
    Seq::new(shown.len(), |k: int| (cols[shown[k].0 as int], shown[k].1@))
}

/// Renders `row` with `columns`, fields separated by `sep`.
pub fn print_row(columns: &Vec<Column>, row: &Row, sep: &str) -> (r: String)
    ensures
        r@ == render_row(columns@, row.fields(), sep@),
{
    let n = if columns.len() < row.len() {
        columns.len()
    } else {
        row.len()
    };
    let ghost z = zipped(columns@, row.fields());
    let mut shown: Vec<(usize, &str)> = Vec::new();
    let mut i: usize = 0;
    while i < n
        invariant
            i <= n == z.len(),
            z == zipped(columns@, row.fields()),
            n <= columns@.len(),
            n <= row.fields().len(),
            forall|k: int| 0 <= k < shown@.len() ==> (#[trigger] shown@[k]).0 < columns@.len(),
            cells_view(columns@, shown@) == z.take(i as int).filter(is_shown()),
        decreases n - i,
    {
        proof {
            assert(z.take(i + 1).drop_last() =~= z.take(i as int));
            assert(z.take(i + 1).last() == z[i as int]);
            assert(z[i as int] == (columns@[i as int], row.fields()[i as int]));
            assert(is_shown()(z[i as int]) == !columns@[i as int].excluded());
            let f0 = z.take(i as int).filter(is_shown());
            reveal(Seq::filter);
            assert(z.take(i + 1).filter(is_shown()) == if is_shown()(z[i as int]) {
                f0.push(z[i as int])
            } else {
                f0
            });
        }
        let ghost shown0 = shown@;
        if !columns[i].is_excluded() {
            let cell = row.field(i);
            shown.push((i, cell));
            assert(cells_view(columns@, shown@) =~= cells_view(columns@, shown0).push(z[i as int]));
        } else {
            assert(cells_view(columns@, shown@) =~= z.take(i + 1).filter(is_shown()));
        }
        i = i + 1;
    }
    assert(z.take(n as int) =~= z);
    let ghost cells = cells_view(columns@, shown@);
    let items = first_last_iter(shown);
    let mut out = String::new();
    let mut overflow: usize = 0;
    let mut k: usize = 0;
    assert(cells.skip(0) =~= cells);
    assert(out@ + render_cells(cells, 0, sep@, true) =~= render_cells(cells, 0, sep@, true));
    while k < items.len()
        invariant
            k <= items@.len() == cells.len(),
            forall|j: int|
                0 <= j < items@.len() ==> (#[trigger] items@[j]).0.0 < columns@.len() && cells[j] == (
                columns@[items@[j].0.0 as int],
                items@[j].0.1@,
            ) && items@[j].1 == (j == 0) && items@[j].2 == (j == items@.len() - 1),
            out@ + render_cells(cells.skip(k as int), overflow as int, sep@, k == 0) == render_cells(
                cells,
                0,
                sep@,
                true,
            ),
        decreases items@.len() - k,
    {
        let ((idx, cell), first, last) = items[k];
        let ghost before = out@;
        let ghost ov0 = overflow as int;
        let ghost rest = cells.skip(k as int);
        assert(rest.drop_first() =~= cells.skip(k + 1));
        assert(rest[0] == cells[k as int]);
        if !first {
            out.append(sep);
        }
        overflow = columns[idx].print_cell(&mut out, cell, overflow, last);
        proof {
            let c = cells[k as int].0;
            assert(c == columns@[idx as int]);
            let text = cell_text(c.size(), c.truncated(), cells[k as int].1, ov0, last);
            let lead = if k == 0 {
                Seq::<char>::empty()
            } else {
                sep@
            };
            assert(out@ =~= before + lead + text);
            assert(render_cells(rest, ov0, sep@, k == 0) == lead + text + render_cells(
                cells.skip(k + 1),
                overflow as int,
                sep@,
                false,
            ));
            assert(out@ + render_cells(cells.skip(k + 1), overflow as int, sep@, false) =~= before
                + render_cells(rest, ov0, sep@, k == 0));
        }
        k = k + 1;
    }
    assert(cells.skip(k as int) =~= Seq::<(Column, Seq<char>)>::empty());
    out
}

} // verus!
