use vstd::prelude::*;
use vstd::utf8::encode_utf8;

use crate::histogram::{
    Entry, chosen_width, count_at, count_term, descends, first_local_min, gt_term, hist_wf, le_term,
    lemma_descends, lemma_sum_all, lemma_sum_insert, lemma_sum_nonneg, lemma_sum_nonneg_prefix,
    lemma_sum_prefix, lemma_sum_update, max_len, min_len, overflow, overflow_term, spread_num, total,
    total_term, count_le, count_gt,
};
use crate::wide::{value_of, wide_add, wide_from, wide_less, wide_mul};

verus! {

/// The length of a text in bytes, as `str::len` gives it.
pub open spec fn byte_len(s: Seq<char>) -> int {
    encode_utf8(s).len() as usize as int
}

/// A compression ratio `num / den`; zero turns compression off.
#[derive(Debug, Clone, Copy, PartialEq, Eq, Structural)]
pub struct Ratio {
    pub num: u64,
    pub den: u64,
}

#[derive(Debug, Clone, Copy, PartialEq, Eq, Structural)]
struct ColumnOptions {
    excluded: bool,
    truncated: bool,
}

/// The shortest and the longest sample seen, kept for diagnostics.
#[derive(Debug)]
pub struct ExtraInfo {
    min_value: Option<String>,
    max_value: Option<String>,
}

/// What is known of a column while its fields are measured.
#[derive(Debug)]
pub struct MeasureColumn {
    samples: Vec<Entry>,
    opts: ColumnOptions,
    extra_info: Option<ExtraInfo>,
}

/// A column whose width is settled.
#[derive(Debug)]
pub struct Column {
    size: usize,
    opts: ColumnOptions,
    extra_info: Option<ExtraInfo>,
}

pub open spec fn opt_view(o: Option<String>) -> Option<Seq<char>> {
    match o {
        Some(s) => Some(s@),
        None => None,
    }
}

/// The sample kept as the shortest after `sample` is seen: the first of the
/// shortest.
pub open spec fn keep_shortest(kept: Option<Seq<char>>, sample: Seq<char>) -> Option<Seq<char>> {
    match kept {
        Some(k) => if byte_len(sample) < byte_len(k) {
            Some(sample)
        } else {
            Some(k)
        },
        None => Some(sample),
    }
}

/// The sample kept as the longest after `sample` is seen: the first of the
/// longest.
pub open spec fn keep_longest(kept: Option<Seq<char>>, sample: Seq<char>) -> Option<Seq<char>> {
    match kept {
        Some(k) => if byte_len(sample) > byte_len(k) {
            Some(sample)
        } else {
            Some(k)
        },
        None => Some(sample),
    }
}

fn copy_text(s: &Option<String>) -> (r: Option<String>)
    ensures
        opt_view(r) == opt_view(*s),
{
    match s {
        Some(t) => Some(t.clone()),
        None => None,
    }
}

fn copy_info(e: &Option<ExtraInfo>) -> (r: Option<ExtraInfo>)
    ensures
        r is Some == e is Some,
        r is Some ==> opt_view(r->0.min_value) == opt_view(e->0.min_value) && opt_view(
            r->0.max_value,
        ) == opt_view(e->0.max_value),
{
    match e {
        Some(x) => Some(
            ExtraInfo { min_value: copy_text(&x.min_value), max_value: copy_text(&x.max_value) },
        ),
        None => None,
    }
}

/// `(7 d + 200)^2` times `t`, where `d = dm + 1`.
fn times_spread(t: &Vec<u64>, dm: u64) -> (r: Vec<u64>)
    ensures
        value_of(r@) == value_of(t@) * spread_num(dm + 1),
{
    let td = times_span(t, dm);
    let tdd = times_span(&td, dm);
    let a = wide_mul(&tdd, 49);
    let b = wide_mul(&td, 2800);
    let c = wide_mul(t, 40000);
    let ab = wide_add(&a, &b);
    let r = wide_add(&ab, &c);
    let ghost v = value_of(t@) as int;
    let ghost d = dm + 1;
    assert(v * d * d * 49 + v * d * 2800 + v * 40000 == v * (49 * d * d + 2800 * d + 40000))
        by (nonlinear_arith);
    r
}

/// `t` times `dm + 1`.
fn times_span(t: &Vec<u64>, dm: u64) -> (r: Vec<u64>)
    ensures
        value_of(r@) == value_of(t@) * (dm + 1),
{
    let a = wide_mul(t, dm);
    let r = wide_add(&a, t);
    let ghost v = value_of(t@) as int;
    assert(v * dm + v == v * (dm + 1)) by (nonlinear_arith);
    r
}

/// Whether widening from `l` to `l + 1` lowers the score; `n` is the number
/// of samples and `dm` the longest length less the shortest.
fn descends_at(h: &Vec<Entry>, p: u64, q: u64, n: u64, dm: u64, l: usize) -> (r: bool)
    requires
        h@.len() > 0,
        n == total(h@),
        dm == max_len(h@) - min_len(h@),
    ensures
        r == descends(h@, p as int, q as int, l as int),
{
    let mut cl: u64 = 0;
    let mut cg: u64 = 0;
    let mut o = wide_from(0);
    let mut j: usize = 0;
    while j < h.len()
        invariant
            j <= h@.len(),
            n == total(h@),
            cl == count_le(h@.take(j as int), l as int),
            cg == count_gt(h@.take(j as int), l as int),
            value_of(o@) == overflow(h@.take(j as int), l as int),
            cl + cg == total(h@.take(j as int)),
        decreases h@.len() - j,
    {
        let (s, c) = h[j];
        proof {
            lemma_sum_prefix(h@, le_term(l as int), j as int);
            lemma_sum_prefix(h@, gt_term(l as int), j as int);
            lemma_sum_prefix(h@, overflow_term(l as int), j as int);
            lemma_sum_prefix(h@, total_term(), j as int);
            lemma_sum_nonneg_prefix(h@, total_term(), j + 1);
        }
        if s <= l {
            cl = cl + c as u64;
        } else {
            cg = cg + c as u64;
            let t = wide_mul(&wide_from(c as u64), (s - l) as u64);
            o = wide_add(&o, &t);
        }
        j = j + 1;
    }
    proof {
        lemma_sum_all(h@, le_term(l as int));
        lemma_sum_all(h@, gt_term(l as int));
        lemma_sum_all(h@, overflow_term(l as int));
    }
    let mut a = wide_from(p);
    a = wide_mul(&a, 100);
    a = times_span(&a, dm);
    a = times_span(&a, dm);
    a = wide_mul(&a, n);
    a = wide_mul(&a, cl);
    let mut b = wide_from(q);
    b = wide_mul(&b, cg);
    b = wide_mul(&b, cg);
    b = times_spread(&b, dm);
    let lhs = wide_add(&a, &b);
    let mut c = wide_add(&wide_from(n), &o);
    c = wide_mul(&c, 2);
    c = wide_mul(&c, q);
    c = wide_mul(&c, cg);
    c = times_spread(&c, dm);
    proof {
        lemma_descends(h@, p as int, q as int, l as int);
    }
    wide_less(&lhs, &c)
}

impl MeasureColumn {
    /// The histogram is well formed and its sample count fits in `usize`.
    pub closed spec fn wf(&self) -> bool {
        hist_wf(self.samples@) && total(self.samples@) <= usize::MAX
    }

    /// A well-formed column has a well-formed histogram.
    pub proof fn lemma_wf_histogram(&self)
        requires
            self.wf(),
        ensures
            hist_wf(self.histogram()),
            total(self.histogram()) <= usize::MAX,
    {
    }

    /// The length histogram: ascending lengths with their counts.
    pub closed spec fn histogram(&self) -> Seq<Entry> {
        self.samples@
    }

    pub closed spec fn excluded(&self) -> bool {
        self.opts.excluded
    }

    pub closed spec fn truncated(&self) -> bool {
        self.opts.truncated
    }

    /// Whether the shortest and longest samples are kept.
    pub closed spec fn collects_info(&self) -> bool {
        self.extra_info is Some
    }

    pub closed spec fn shortest(&self) -> Option<Seq<char>> {
        match self.extra_info {
            Some(e) => opt_view(e.min_value),
            None => None,
        }
    }

    pub closed spec fn longest(&self) -> Option<Seq<char>> {
        match self.extra_info {
            Some(e) => opt_view(e.max_value),
            None => None,
        }
    }

    pub fn new(collect_info: bool) -> (r: MeasureColumn)
        ensures
            r.wf(),
            r.histogram().len() == 0,
            !r.excluded(),
            !r.truncated(),
            r.collects_info() == collect_info,
            r.shortest() is None,
            r.longest() is None,
    {
        let extra = if collect_info {
            Some(ExtraInfo { min_value: None, max_value: None })
        } else {
            None
        };
        let r = MeasureColumn {
            samples: Vec::new(),
            opts: ColumnOptions { excluded: false, truncated: false },
            extra_info: extra,
        };
        assert(total(r.samples@) == 0);
        r
    }

    pub fn set_excluded(&mut self, is_excluded: bool)
        ensures
            final(self).excluded() == is_excluded,
            final(self).truncated() == old(self).truncated(),
            final(self).histogram() == old(self).histogram(),
            final(self).wf() == old(self).wf(),
            final(self).collects_info() == old(self).collects_info(),
            final(self).shortest() == old(self).shortest(),
            final(self).longest() == old(self).longest(),
    {
        self.opts.excluded = is_excluded;
    }

    pub fn set_truncated(&mut self, is_truncated: bool)
        ensures
            final(self).truncated() == is_truncated,
            final(self).excluded() == old(self).excluded(),
            final(self).histogram() == old(self).histogram(),
            final(self).wf() == old(self).wf(),
            final(self).collects_info() == old(self).collects_info(),
            final(self).shortest() == old(self).shortest(),
            final(self).longest() == old(self).longest(),
    {
        self.opts.truncated = is_truncated;
    }

    /// Counts one more field of this column.
    pub fn add_sample(&mut self, sample: &str)
        requires
            old(self).wf(),
            total(old(self).histogram()) < usize::MAX,
        ensures
            final(self).wf(),
            forall|len: int|
                #![trigger count_at(final(self).histogram(), len)]
                count_at(final(self).histogram(), len) == count_at(old(self).histogram(), len) + if len
                    == byte_len(sample@) {
                    1int
                } else {
                    0int
                },
            total(final(self).histogram()) == total(old(self).histogram()) + 1,
            final(self).excluded() == old(self).excluded(),
            final(self).truncated() == old(self).truncated(),
            final(self).collects_info() == old(self).collects_info(),
            final(self).collects_info() ==> final(self).shortest() == keep_shortest(
                old(self).shortest(),
                sample@,
            ) && final(self).longest() == keep_longest(old(self).longest(), sample@),
            !final(self).collects_info() ==> final(self).shortest() is None
                && final(self).longest() is None,
    {
        let size = sample.len();
        let ghost h = self.samples@;
        let mut lo: usize = 0;
        let mut hi: usize = self.samples.len();
        while lo < hi
            invariant
                0 <= lo <= hi <= h.len(),
                h == self.samples@,
                hist_wf(h),
                forall|j: int| 0 <= j < lo ==> (#[trigger] h[j]).0 < size,
                forall|j: int| hi <= j < h.len() ==> (#[trigger] h[j]).0 >= size,
            decreases hi - lo,
        {
            let mid = lo + (hi - lo) / 2;
            if self.samples[mid].0 < size {
                lo = mid + 1;
            } else {
                hi = mid;
            }
        }
        let i = lo;
        if i < self.samples.len() && self.samples[i].0 == size {
            let c = self.samples[i].1;
            proof {
                lemma_sum_update(h, total_term(), i as int, (size, 0usize));
                lemma_sum_nonneg(h.update(i as int, (size, 0usize)), total_term());
            }
            self.samples.set(i, (size, c + 1));
            proof {
                lemma_sum_update(h, total_term(), i as int, (size, (c + 1) as usize));
                assert forall|len: int|
                    #![trigger count_at(self.samples@, len)]
                    count_at(self.samples@, len) == count_at(h, len) + if len == size {
                        1int
                    } else {
                        0int
                    } by {
                    lemma_sum_update(h, count_term(len), i as int, (size, (c + 1) as usize));
                }
            }
        } else {
            self.samples.insert(i, (size, 1));
            proof {
                lemma_sum_insert(h, total_term(), i as int, (size, 1usize));
                assert forall|len: int|
                    #![trigger count_at(self.samples@, len)]
                    count_at(self.samples@, len) == count_at(h, len) + if len == size {
                        1int
                    } else {
                        0int
                    } by {
                    lemma_sum_insert(h, count_term(len), i as int, (size, 1usize));
                }
                assert forall|a: int, b: int|
                    0 <= a < b < self.samples@.len() implies (
                    #[trigger] self.samples@[a]).0 < (#[trigger] self.samples@[b]).0 by {
                    if i < h.len() {
                        assert(h[i as int].0 > size);
                    }
                    if b < i {
                    } else if b == i {
                    } else if a < i {
                        assert(self.samples@[b] == h[b - 1]);
                    } else if a == i {
                        assert(self.samples@[b] == h[b - 1]);
                        assert(h[i as int].0 <= h[b - 1].0);
                    } else {
                        assert(self.samples@[b] == h[b - 1]);
                        assert(self.samples@[a] == h[a - 1]);
                    }
                }
            }
        }
        let new_extra = match &self.extra_info {
            Some(e) => {
                let min_value = match &e.min_value {
                    Some(m) => if size < m.as_str().len() {
                        Some(sample.to_owned())
                    } else {
                        Some(m.clone())
                    },
                    None => Some(sample.to_owned()),
                };
                let max_value = match &e.max_value {
                    Some(m) => if size > m.as_str().len() {
                        Some(sample.to_owned())
                    } else {
                        Some(m.clone())
                    },
                    None => Some(sample.to_owned()),
                };
                Some(ExtraInfo { min_value, max_value })
            },
            None => None,
        };
        self.extra_info = new_extra;
    }

    /// Settles the column's width for compression ratio `ratio`.
    pub fn calculate_size(&self, ratio: Ratio) -> (r: Column)
        requires
            self.wf(),
            self.histogram().len() > 0,
            ratio.den > 0,
        ensures
            r.size() == chosen_width(self.histogram(), ratio.num as int, ratio.den as int),
            r.excluded() == self.excluded(),
            r.truncated() == self.truncated(),
            r.collects_info() == self.collects_info(),
            r.shortest() == self.shortest(),
            r.longest() == self.longest(),
    {
        let h = &self.samples;
        let min = h[0].0;
        let max = h[h.len() - 1].0;
        proof {
            if h@.len() > 1 {
                assert(h@[0].0 < h@[h@.len() - 1].0);
            }
        }
        let best_size = if ratio.num == 0 {
            max
        } else {
            let mut n: usize = 0;
            let mut j: usize = 0;
            while j < h.len()
                invariant
                    j <= h@.len(),
                    n == total(h@.take(j as int)),
                    total(h@) <= usize::MAX,
                decreases h@.len() - j,
            {
                proof {
                    lemma_sum_prefix(h@, total_term(), j as int);
                    lemma_sum_nonneg_prefix(h@, total_term(), j + 1);
                }
                n = n + h[j].1;
                j = j + 1;
            }
            proof {
                lemma_sum_all(h@, total_term());
            }
            let dm = (max - min) as u64;
            let mut l = min;
            while l < max && descends_at(h, ratio.num, ratio.den, n as u64, dm, l)
                invariant
                    min <= l <= max,
                    min == min_len(h@),
                    max == max_len(h@),
                    h@.len() > 0,
                    n == total(h@),
                    dm == max - min,
                    first_local_min(h@, ratio.num as int, ratio.den as int, min as int)
                        == first_local_min(h@, ratio.num as int, ratio.den as int, l as int),
                decreases max - l,
            {
                l = l + 1;
            }
            l
        };
        Column { size: best_size, opts: self.opts, extra_info: copy_info(&self.extra_info) }
    }
}

/// The width left for a cell once `overflow` earlier characters are paid back.
pub open spec fn out_width(size: int, overflow: int) -> int {
    if overflow >= size {
        0
    } else {
        size - overflow
    }
}

pub open spec fn spaces(k: int) -> Seq<char> {
    Seq::new(k as nat, |i: int| ' ')
}

/// The text that a cell renders to.
pub open spec fn cell_text(
    size: int,
    truncated: bool,
    cell: Seq<char>,
    overflow: int,
    last: bool,
) -> Seq<char> {
    let w = out_width(size, overflow);
    if last {
        cell
    } else if truncated && byte_len(cell) > w {
        if w > 0 {
            cell.take(if w - 1 < cell.len() {
                w - 1
            } else {
                cell.len() as int
            }) + seq!['…']
        } else {
            seq!['…']
        }
    } else if cell.len() < w {
        cell + spaces(w - cell.len())
    } else {
        cell
    }
}

/// The overflow carried to the next cell of the row; it saturates at
/// `usize::MAX`.
pub open spec fn cell_overflow(
    size: int,
    truncated: bool,
    cell: Seq<char>,
    overflow: int,
    last: bool,
) -> int {
    let w = out_width(size, overflow);
    let b = byte_len(cell);
    if last {
        0
    } else if truncated && b > w {
        if w > 0 {
            0
        } else {
            1
        }
    } else if b < size {
        if overflow >= size - b {
            overflow - (size - b)
        } else {
            0
        }
    } else if overflow + (b - size) > usize::MAX {
        usize::MAX as int
    } else {
        overflow + (b - size)
    }
}

impl Column {
    pub closed spec fn size(&self) -> int {
        self.size as int
    }

    /// A settled width fits in `usize`.
    pub proof fn lemma_size_bounded(&self)
        ensures
            0 <= self.size() <= usize::MAX,
    {
    }

    pub closed spec fn excluded(&self) -> bool {
        self.opts.excluded
    }

    pub closed spec fn truncated(&self) -> bool {
        self.opts.truncated
    }

    pub closed spec fn collects_info(&self) -> bool {
        self.extra_info is Some
    }

    pub closed spec fn shortest(&self) -> Option<Seq<char>> {
        match self.extra_info {
            Some(e) => opt_view(e.min_value),
            None => None,
        }
    }

    pub closed spec fn longest(&self) -> Option<Seq<char>> {
        match self.extra_info {
            Some(e) => opt_view(e.max_value),
            None => None,
        }
    }

    pub fn is_excluded(&self) -> (r: bool)
        ensures
            r == self.excluded(),
    {
        self.opts.excluded
    }

    pub fn is_truncated(&self) -> (r: bool)
        ensures
            r == self.truncated(),
    {
        self.opts.truncated
    }

    /// The settled width.
    pub fn get_size(&self) -> (r: usize)
        ensures
            r == self.size(),
    {
        self.size
    }

    /// Whether the shortest and longest samples were kept.
    pub fn has_info(&self) -> (r: bool)
        ensures
            r == self.collects_info(),
    {
        self.extra_info.is_some()
    }

    /// The first of the shortest samples, when kept.
    pub fn min_value(&self) -> (r: Option<&str>)
        ensures
            match r {
                Some(s) => self.shortest() == Some(s@),
                None => self.shortest() is None,
            },
    {
        match &self.extra_info {
            Some(e) => match &e.min_value {
                Some(s) => Some(s.as_str()),
                None => None,
            },
            None => None,
        }
    }

    /// The first of the longest samples, when kept.
    pub fn max_value(&self) -> (r: Option<&str>)
        ensures
            match r {
                Some(s) => self.longest() == Some(s@),
                None => self.longest() is None,
            },
    {
        match &self.extra_info {
            Some(e) => match &e.max_value {
                Some(s) => Some(s.as_str()),
                None => None,
            },
            None => None,
        }
    }

    /// Appends the rendering of `cell` to `out`, given the overflow carried
    /// from the earlier cells of the row, and returns the overflow to carry
    /// on. The last cell of a row is written as it is.
    pub fn print_cell(&self, out: &mut String, cell: &str, overflow: usize, last: bool) -> (r: usize)
        ensures
            final(out)@ == old(out)@ + cell_text(
                self.size(),
                self.truncated(),
                cell@,
                overflow as int,
                last,
            ),
            r == cell_overflow(self.size(), self.truncated(), cell@, overflow as int, last),
    {
        proof {
            reveal_strlit("…");
            reveal_strlit(" ");
        }
        if last {
            out.append(cell);
            return 0;
        }
        let out_width = self.size.saturating_sub(overflow);
        let len = cell.len();
        if self.opts.truncated && len > out_width {
            if out_width > 0 {
                let chars = cell.unicode_len();
                let keep = if out_width - 1 < chars {
                    out_width - 1
                } else {
                    chars
                };
                out.append(cell.substring_char(0, keep));
                out.append("…");
                0
            } else {
                out.append("…");
                1
            }
        } else {
            out.append(cell);
            let chars = cell.unicode_len();
            let ghost base = old(out)@ + cell@;
            if chars < out_width {
                let mut k = chars;
                while k < out_width
                    invariant
                        chars == cell@.len(),
                        chars <= k <= out_width,
                        out@ == base + spaces(k - chars),
                    decreases out_width - k,
                {
                    proof {
                        reveal_strlit(" ");
                    }
                    out.append(" ");
                    assert(out@ =~= base + spaces(k + 1 - chars));
                    k = k + 1;
                }
            } else {
                assert(out@ =~= base);
            }
            if len < self.size {
                overflow.saturating_sub(self.size - len)
            } else {
                overflow.saturating_add(len - self.size)
            }
        }
    }
}

} // verus!
