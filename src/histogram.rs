use vstd::prelude::*;

use crate::wide::{value_of, wide_add, wide_from, wide_less, wide_mul};

verus! {

/// An entry of a length histogram: a field length in bytes and how often it
/// was seen.
pub type Entry = (usize, usize);

/// Lengths strictly ascending, every count at least one.
pub open spec fn hist_wf(h: Seq<Entry>) -> bool {
    &&& forall|i: int, j: int| 0 <= i < j < h.len() ==> (#[trigger] h[i]).0 < (#[trigger] h[j]).0
    &&& forall|i: int| 0 <= i < h.len() ==> (#[trigger] h[i]).1 >= 1
}

/// The sum of `f` over the entries of `h`.
pub open spec fn sum_of(h: Seq<Entry>, f: spec_fn(Entry) -> int) -> int
    decreases h.len(),
{
    if h.len() == 0 {
        0
    } else {
        sum_of(h.drop_last(), f) + f(h.last())
    }
}

pub open spec fn count_term(len: int) -> spec_fn(Entry) -> int {
    |e: Entry| if e.0 == len { e.1 as int } else { 0 }
}

pub open spec fn total_term() -> spec_fn(Entry) -> int {
    |e: Entry| e.1 as int
}

pub open spec fn le_term(l: int) -> spec_fn(Entry) -> int {
    |e: Entry| if e.0 <= l { e.1 as int } else { 0 }
}

pub open spec fn gt_term(l: int) -> spec_fn(Entry) -> int {
    |e: Entry| if e.0 > l { e.1 as int } else { 0 }
}

pub open spec fn waste_term(l: int) -> spec_fn(Entry) -> int {
    |e: Entry| if e.0 < l { e.1 * (l - e.0) } else { 0 }
}

pub open spec fn overflow_term(l: int) -> spec_fn(Entry) -> int {
    |e: Entry| if e.0 > l { e.1 * (e.0 - l) } else { 0 }
}

/// How many samples have length `len`.
pub open spec fn count_at(h: Seq<Entry>, len: int) -> int {
    sum_of(h, count_term(len))
}

/// How many samples there are.
pub open spec fn total(h: Seq<Entry>) -> int {
    sum_of(h, total_term())
}

/// How many samples are at most `l` long.
pub open spec fn count_le(h: Seq<Entry>, l: int) -> int {
    sum_of(h, le_term(l))
}

/// How many samples are longer than `l`.
pub open spec fn count_gt(h: Seq<Entry>, l: int) -> int {
    sum_of(h, gt_term(l))
}

/// The padding that width `l` costs, summed over the samples shorter than `l`.
pub open spec fn waste(h: Seq<Entry>, l: int) -> int {
    sum_of(h, waste_term(l))
}

/// The overflow that width `l` costs, summed over the samples longer than `l`.
pub open spec fn overflow(h: Seq<Entry>, l: int) -> int {
    sum_of(h, overflow_term(l))
}

/// The shortest length seen.
pub open spec fn min_len(h: Seq<Entry>) -> int {
    h[0].0 as int
}

/// The longest length seen.
pub open spec fn max_len(h: Seq<Entry>) -> int {
    h.last().0 as int
}

/// `49 d^2 + 2800 d + 40000`, that is `(7 d + 200)^2`.
pub open spec fn spread_num(d: int) -> int {
    49 * d * d + 2800 * d + 40000
}

/// The score of width `l`, scaled by the positive factor `100 q n^2 d^2`:
/// with ratio `p / q`, `n` samples and `d = 1 + max - min`, the score is
/// `ratio (1 + waste / n) + (1 + overflow / n)^2 (0.7 + 20 / d)^2`.
pub open spec fn score(h: Seq<Entry>, p: int, q: int, l: int) -> int {
    let n = total(h);
    let d = max_len(h) - min_len(h) + 1;
    p * 100 * d * d * n * (n + waste(h, l)) + q * spread_num(d) * ((n + overflow(h, l)) * (n
        + overflow(h, l)))
}

/// Going from width `l` to `l + 1` lowers the score.
pub open spec fn descends(h: Seq<Entry>, p: int, q: int, l: int) -> bool {
    score(h, p, q, l + 1) < score(h, p, q, l)
}

/// The first width from `l` on where the score stops falling, or the longest
/// length.
pub open spec fn first_local_min(h: Seq<Entry>, p: int, q: int, l: int) -> int
    decreases max_len(h) - l,
{
    if l >= max_len(h) || !descends(h, p, q, l) {
        l
    } else {
        first_local_min(h, p, q, l + 1)
    }
}

/// The width chosen for ratio `p / q`: the longest length when the ratio is
/// zero, else the first local minimum of the score from the shortest length
/// up.
pub open spec fn chosen_width(h: Seq<Entry>, p: int, q: int) -> int {
    if p == 0 {
        max_len(h)
    } else {
        first_local_min(h, p, q, min_len(h))
    }
}

pub proof fn lemma_sum_prefix(h: Seq<Entry>, f: spec_fn(Entry) -> int, j: int)
    requires
        0 <= j < h.len(),
    ensures
        sum_of(h.take(j + 1), f) == sum_of(h.take(j), f) + f(h[j]),
{
    assert(h.take(j + 1).drop_last() =~= h.take(j));
}

pub proof fn lemma_sum_all(h: Seq<Entry>, f: spec_fn(Entry) -> int)
    ensures
        sum_of(h.take(h.len() as int), f) == sum_of(h, f),
{
    assert(h.take(h.len() as int) =~= h);
}

pub proof fn lemma_sum_update(h: Seq<Entry>, f: spec_fn(Entry) -> int, i: int, e: Entry)
    requires
        0 <= i < h.len(),
    ensures
        sum_of(h.update(i, e), f) == sum_of(h, f) - f(h[i]) + f(e),
    decreases h.len(),
{
    if i == h.len() - 1 {
        assert(h.update(i, e).drop_last() =~= h.drop_last());
    } else {
        assert(h.update(i, e).drop_last() =~= h.drop_last().update(i, e));
        lemma_sum_update(h.drop_last(), f, i, e);
    }
}

pub proof fn lemma_sum_insert(h: Seq<Entry>, f: spec_fn(Entry) -> int, i: int, e: Entry)
    requires
        0 <= i <= h.len(),
    ensures
        sum_of(h.insert(i, e), f) == sum_of(h, f) + f(e),
    decreases h.len(),
{
    if i == h.len() {
        assert(h.insert(i, e).drop_last() =~= h);
    } else {
        assert(h.insert(i, e).drop_last() =~= h.drop_last().insert(i, e));
        lemma_sum_insert(h.drop_last(), f, i, e);
    }
}

pub proof fn lemma_sum_nonneg_prefix(h: Seq<Entry>, f: spec_fn(Entry) -> int, j: int)
    requires
        0 <= j <= h.len(),
        forall|e: Entry| #[trigger] f(e) >= 0,
    ensures
        0 <= sum_of(h.take(j), f) <= sum_of(h, f),
    decreases h.len() - j,
{
    if j < h.len() {
        lemma_sum_nonneg_prefix(h, f, j + 1);
        lemma_sum_prefix(h, f, j);
        lemma_sum_nonneg(h.take(j), f);
    } else {
        lemma_sum_all(h, f);
        lemma_sum_nonneg(h, f);
    }
}

pub proof fn lemma_sum_nonneg(h: Seq<Entry>, f: spec_fn(Entry) -> int)
    requires
        forall|e: Entry| #[trigger] f(e) >= 0,
    ensures
        sum_of(h, f) >= 0,
    decreases h.len(),
{
    if h.len() > 0 {
        lemma_sum_nonneg(h.drop_last(), f);
    }
}

/// Two sums whose terms agree entry by entry agree.
pub proof fn lemma_sum_pointwise(h: Seq<Entry>, f: spec_fn(Entry) -> int, g: spec_fn(Entry) -> int)
    requires
        forall|i: int| 0 <= i < h.len() ==> f(#[trigger] h[i]) == g(h[i]),
    ensures
        sum_of(h, f) == sum_of(h, g),
    decreases h.len(),
{
    if h.len() > 0 {
        assert forall|i: int| 0 <= i < h.drop_last().len() implies f(
            #[trigger] h.drop_last()[i],
        ) == g(h.drop_last()[i]) by {
            assert(h.drop_last()[i] == h[i]);
        }
        lemma_sum_pointwise(h.drop_last(), f, g);
    }
}

/// The sum of `f + g` is the sum of `f` plus the sum of `g`.
pub proof fn lemma_sum_add(
    h: Seq<Entry>,
    f: spec_fn(Entry) -> int,
    g: spec_fn(Entry) -> int,
    fg: spec_fn(Entry) -> int,
)
    requires
        forall|e: Entry| #[trigger] fg(e) == f(e) + g(e),
    ensures
        sum_of(h, fg) == sum_of(h, f) + sum_of(h, g),
    decreases h.len(),
{
    if h.len() > 0 {
        lemma_sum_add(h.drop_last(), f, g, fg);
    }
}

/// Widening by one adds one unit of padding for each sample of length at
/// most `l`.
pub proof fn lemma_waste_step(h: Seq<Entry>, l: int)
    ensures
        waste(h, l + 1) == waste(h, l) + count_le(h, l),
{
    let f = waste_term(l + 1);
    let g = waste_term(l);
    let c = le_term(l);
    assert forall|e: Entry| #[trigger] f(e) == g(e) + c(e) by {
        if e.0 < l {
            assert(e.1 * (l + 1 - e.0) == e.1 * (l - e.0) + e.1) by (nonlinear_arith);
        } else if e.0 == l {
            assert(e.1 * (l + 1 - e.0) == e.1) by (nonlinear_arith)
                requires
                    e.0 == l,
            ;
        }
    }
    lemma_sum_add(h, g, c, f);
}

/// Widening by one removes one unit of overflow for each sample longer than
/// `l`.
pub proof fn lemma_overflow_step(h: Seq<Entry>, l: int)
    ensures
        overflow(h, l + 1) == overflow(h, l) - count_gt(h, l),
{
    let f = overflow_term(l + 1);
    let g = overflow_term(l);
    let c = gt_term(l);
    assert forall|e: Entry| #[trigger] g(e) == f(e) + c(e) by {
        if e.0 > l + 1 {
            assert(e.1 * (e.0 - l) == e.1 * (e.0 - (l + 1)) + e.1) by (nonlinear_arith);
        } else if e.0 == l + 1 {
            assert(e.1 * (e.0 - l) == e.1) by (nonlinear_arith)
                requires
                    e.0 == l + 1,
            ;
        }
    }
    lemma_sum_add(h, f, c, g);
}

/// The two sides of the comparison that tells whether the score falls from
/// width `l` to `l + 1`, with the common terms of the two scores cancelled.
pub open spec fn descent_lhs(h: Seq<Entry>, p: int, q: int, l: int) -> int {
    let n = total(h);
    let d = max_len(h) - min_len(h) + 1;
    let cg = count_gt(h, l);
    p * 100 * d * d * n * count_le(h, l) + q * cg * cg * spread_num(d)
}

pub open spec fn descent_rhs(h: Seq<Entry>, p: int, q: int, l: int) -> int {
    let n = total(h);
    let d = max_len(h) - min_len(h) + 1;
    (n + overflow(h, l)) * 2 * q * count_gt(h, l) * spread_num(d)
}

pub proof fn lemma_descends(h: Seq<Entry>, p: int, q: int, l: int)
    ensures
        descends(h, p, q, l) == (descent_lhs(h, p, q, l) < descent_rhs(h, p, q, l)),
{
    lemma_waste_step(h, l);
    lemma_overflow_step(h, l);
    let n = total(h);
    let d = max_len(h) - min_len(h) + 1;
    let s = spread_num(d);
    let a = p * 100 * d * d * n;
    let w = waste(h, l);
    let o = overflow(h, l);
    let cl = count_le(h, l);
    let cg = count_gt(h, l);
    assert(score(h, p, q, l) == a * (n + w) + q * s * ((n + o) * (n + o)));
    assert(score(h, p, q, l + 1) == a * (n + w + cl) + q * s * ((n + o - cg) * (n + o - cg)));
    let x = n + o;
    assert(a * (n + w + cl) == a * (n + w) + a * cl) by (nonlinear_arith);
    assert((x - cg) * (x - cg) == x * x - x * cg * 2 + cg * cg) by (nonlinear_arith);
    assert(q * s * (x * x - x * cg * 2 + cg * cg) == q * s * (x * x) - q * s * (x * cg * 2) + q
        * s * (cg * cg)) by (nonlinear_arith);
    assert(q * s * (cg * cg) == q * cg * cg * s) by (nonlinear_arith);
    assert(q * s * (x * cg * 2) == x * 2 * q * cg * s) by (nonlinear_arith);
    assert(descent_lhs(h, p, q, l) == a * cl + q * cg * cg * s);
    assert(descent_rhs(h, p, q, l) == (n + o) * 2 * q * cg * s);
}

/// A histogram with samples has entries.
pub proof fn lemma_counted_nonempty(h: Seq<Entry>, extra: int)
    requires
        total(h) == extra + 1,
        extra >= 0,
    ensures
        h.len() > 0,
{
}

pub proof fn lemma_total_nonneg(h: Seq<Entry>)
    ensures
        total(h) >= 0,
{
    lemma_sum_nonneg(h, total_term());
}

proof fn lemma_count_seen(h: Seq<Entry>, len: int)
    requires
        count_at(h, len) > 0,
    ensures
        exists|i: int| 0 <= i < h.len() && (#[trigger] h[i]).0 == len,
    decreases h.len(),
{
    if h.len() > 0 {
        if h.last().0 != len {
            lemma_count_seen(h.drop_last(), len);
            let i = choose|i: int| 0 <= i < h.drop_last().len() && (#[trigger] h.drop_last()[i]).0
                == len;
            assert(h[i] == h.drop_last()[i]);
        } else {
            assert(h[h.len() - 1].0 == len);
        }
    }
}

/// With compression off, every measured field fits its column: no sample is
/// longer than the chosen width.
pub proof fn lemma_uncompressed_fits(h: Seq<Entry>, q: int, len: int)
    requires
        hist_wf(h),
        h.len() > 0,
        count_at(h, len) > 0,
    ensures
        len <= chosen_width(h, 0, q),
{
    lemma_count_seen(h, len);
    let i = choose|i: int| 0 <= i < h.len() && (#[trigger] h[i]).0 == len;
    if i < h.len() - 1 {
        assert(h[i].0 < h[h.len() - 1].0);
    }
}

/// With compression off, the chosen width is the longest field length
/// measured: a sample of exactly that length was seen, and none is longer.
pub proof fn lemma_uncompressed_is_longest(h: Seq<Entry>, q: int)
    requires
        hist_wf(h),
        h.len() > 0,
    ensures
        count_at(h, chosen_width(h, 0, q)) > 0,
        forall|len: int| count_at(h, len) > 0 ==> len <= #[trigger] chosen_width(h, 0, q),
{
    let m = h.last().0 as int;
    lemma_sum_nonneg(h.drop_last(), count_term(m));
    assert(count_at(h, m) == sum_of(h.drop_last(), count_term(m)) + h.last().1);
    assert forall|len: int| count_at(h, len) > 0 implies len <= #[trigger] chosen_width(h, 0, q) by {
        lemma_uncompressed_fits(h, q, len);
    }
}

} // verus!
