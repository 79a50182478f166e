use vstd::prelude::*;

use crate::errors::Error;

verus! {

/// A selector of columns, numbered from one.
#[derive(Debug, Clone, Copy, PartialEq, Eq, Structural)]
pub enum Range {
    /// Column `n` and every later one.
    From(u32),
    /// Every column up to and including `n`.
    To(u32),
    /// The columns from `a` to `b`, both included.
    Between(u32, u32),
}

impl Range {
    pub open spec fn spec_contains(self, n: int) -> bool {
        match self {
            Range::From(a) => a <= n,
            Range::To(b) => n <= b,
            Range::Between(a, b) => a <= n && n <= b,
        }
    }

    pub fn contains(&self, n: u32) -> (r: bool)
        ensures
            r == self.spec_contains(n as int),
    {
        match *self {
            Range::From(a) => a <= n,
            Range::To(b) => n <= b,
            Range::Between(a, b) => a <= n && n <= b,
        }
    }
}

/// What a selector text denotes.
pub enum Selector {
    Parsed(Range),
    Malformed,
    Decreasing,
    StartsAtZero,
}

pub open spec fn is_digit(c: char) -> bool {
    '0' <= c && c <= '9'
}

/// One or more decimal digits.
pub open spec fn is_number(t: Seq<char>) -> bool {
    t.len() > 0 && forall|i: int| 0 <= i < t.len() ==> is_digit(#[trigger] t[i])
}

pub open spec fn number_value(t: Seq<char>) -> nat
    decreases t.len(),
{
    if t.len() == 0 {
        0
    } else {
        number_value(t.drop_last()) * 10 + (t.last() as u32 - '0' as u32) as nat
    }
}

/// A number that fits the selectors' integer type.
pub open spec fn is_small_number(t: Seq<char>) -> bool {
    is_number(t) && number_value(t) <= u32::MAX
}

/// `k` is the place of the first `-`, and only digits come before it.
pub open spec fn dash_at(s: Seq<char>, k: int) -> bool {
    0 <= k < s.len() && s[k] == '-' && forall|j: int| 0 <= j < k ==> is_digit(#[trigger] s[j])
}

/// The selector that `s` spells, before any check of its numbers' values
/// against the column numbering.
pub open spec fn spelled_range(s: Seq<char>) -> Option<Range> {
    if is_number(s) {
        if is_small_number(s) {
            Some(Range::Between(number_value(s) as u32, number_value(s) as u32))
        } else {
            None
        }
    } else if exists|k: int| dash_at(s, k) {
        let k = choose|k: int| dash_at(s, k);
        let a = s.take(k);
        let b = s.skip(k + 1);
        if a.len() == 0 && is_small_number(b) {
            Some(Range::To(number_value(b) as u32))
        } else if is_small_number(a) && b.len() == 0 {
            Some(Range::From(number_value(a) as u32))
        } else if is_small_number(a) && is_small_number(b) {
            Some(Range::Between(number_value(a) as u32, number_value(b) as u32))
        } else {
            None
        }
    } else {
        None
    }
}

/// The meaning of a selector text: `N`, `N-`, `N-M` or `-M`, with columns
/// numbered from one (a zero in any place is refused) and no decreasing
/// pair.
pub open spec fn spec_parse_range(s: Seq<char>) -> Selector {
    match spelled_range(s) {
        None => Selector::Malformed,
        Some(Range::From(0)) => Selector::StartsAtZero,
        Some(Range::To(0)) => Selector::StartsAtZero,
        Some(Range::Between(0, _)) => Selector::StartsAtZero,
        Some(Range::Between(_, 0)) => Selector::StartsAtZero,
        Some(Range::Between(a, b)) => if b < a {
            Selector::Decreasing
        } else {
            Selector::Parsed(Range::Between(a, b))
        },
        Some(r) => Selector::Parsed(r),
    }
}

/// `r` is the result that selector text `s` is owed.
pub open spec fn parse_outcome(r: Result<Range, Error>, s: Seq<char>) -> bool {
    match spec_parse_range(s) {
        Selector::Parsed(x) => r == Ok::<Range, Error>(x),
        Selector::Malformed => match r {
            Err(Error::RangeParseError { s: t }) => t@ == s,
            _ => false,
        },
        Selector::Decreasing => match r {
            Err(Error::InvalidDecreasingRange { s: t }) => t@ == s,
            _ => false,
        },
        Selector::StartsAtZero => match r {
            Err(Error::ColumnsStartAtOne) => true,
            _ => false,
        },
    }
}

proof fn lemma_number_value_grows(t: Seq<char>, i: int)
    requires
        0 <= i <= t.len(),
    ensures
        number_value(t.take(i)) <= number_value(t),
    decreases t.len() - i,
{
    if i < t.len() {
        lemma_number_value_grows(t, i + 1);
        assert(t.take(i + 1).drop_last() =~= t.take(i));
    } else {
        assert(t.take(i) =~= t);
    }
}

fn digit_char(c: char) -> (r: bool)
    ensures
        r == is_digit(c),
{
    '0' <= c && c <= '9'
}

/// Reads the digits of `s` in `[from, to)`; `None` when they are not a number
/// that fits in `u32`.
fn read_number(s: &str, from: usize, to: usize) -> (r: Option<u32>)
    requires
        from <= to <= s@.len(),
    ensures
        match r {
            Some(v) => is_small_number(s@.subrange(from as int, to as int)) && v as nat
                == number_value(s@.subrange(from as int, to as int)),
            None => !is_small_number(s@.subrange(from as int, to as int)),
        },
{
    let ghost t = s@.subrange(from as int, to as int);
    if from == to {
        return None;
    }
    let mut value: u64 = 0;
    let mut i = from;
    while i < to
        invariant
            from <= i <= to <= s@.len(),
            t == s@.subrange(from as int, to as int),
            value <= u32::MAX,
            forall|j: int| 0 <= j < i - from ==> is_digit(#[trigger] t[j]),
            value as nat == number_value(t.take(i - from)),
        decreases to - i,
    {
        let c = s.get_char(i);
        assert(c == t[i - from]);
        if !('0' <= c && c <= '9') {
            return None;
        }
        let d = (c as u32 - '0' as u32) as u64;
        let next = value * 10 + d;
        assert(t.take(i + 1 - from).drop_last() =~= t.take(i - from));
        if next > u32::MAX as u64 {
            proof {
                lemma_number_value_grows(t, i + 1 - from);
            }
            return None;
        }
        value = next;
        i = i + 1;
    }
    assert(t.take(to - from) =~= t);
    Some(value as u32)
}

impl Range {
    /// Parses one selector: `N`, `N-`, `N-M` or `-M`.
    pub fn from_str(s: &str) -> (r: Result<Range, Error>)
        ensures
            parse_outcome(r, s@),
    {
        let n = s.unicode_len();
        let mut k: usize = 0;
        while k < n && digit_char(s.get_char(k))
            invariant
                k <= n == s@.len(),
                forall|j: int| 0 <= j < k ==> is_digit(#[trigger] s@[j]),
            decreases n - k,
        {
            k = k + 1;
        }
        let parsed: Option<Range>;
        if k == n {
            assert(s@.subrange(0, n as int) =~= s@);
            parsed = match read_number(s, 0, n) {
                Some(v) => Some(Range::Between(v, v)),
                None => None,
            };
            assert(parsed == spelled_range(s@));
        } else if s.get_char(k) != '-' {
            assert(!is_digit(s@[k as int]));
            assert(!is_number(s@));
            assert forall|k2: int| !dash_at(s@, k2) by {
                if dash_at(s@, k2) {
                    if k2 < k {
                        assert(is_digit(s@[k2]));
                    } else if k2 > k {
                        assert(is_digit(s@[k as int]));
                    }
                }
            }
            parsed = None;
        } else {
            assert(dash_at(s@, k as int));
            assert(!is_number(s@)) by {
                assert(!is_digit(s@[k as int]));
            }
            assert forall|k2: int| dash_at(s@, k2) implies k2 == k by {
                if k2 < k {
                    assert(is_digit(s@[k2]));
                } else if k2 > k {
                    assert(is_digit(s@[k as int]));
                }
            }
            let ghost kc = choose|k2: int| dash_at(s@, k2);
            assert(kc == k);
            assert(s@.take(k as int) =~= s@.subrange(0, k as int));
            assert(s@.skip(k + 1) =~= s@.subrange(k + 1, n as int));
            let a = read_number(s, 0, k);
            let b = read_number(s, k + 1, n);
            parsed = if k == 0 {
                match b {
                    Some(y) => Some(Range::To(y)),
                    None => None,
                }
            } else if k + 1 == n {
                match a {
                    Some(x) => Some(Range::From(x)),
                    None => None,
                }
            } else {
                match (a, b) {
                    (Some(x), Some(y)) => Some(Range::Between(x, y)),
                    _ => None,
                }
            };
            assert(parsed == spelled_range(s@));
        }
        match parsed {
            None => Err(Error::RangeParseError { s: s.to_owned() }),
            Some(Range::From(0)) | Some(Range::To(0)) | Some(Range::Between(0, _)) | Some(
                Range::Between(_, 0),
            ) => Err(
                Error::ColumnsStartAtOne,
            ),
            Some(Range::Between(a, b)) => if b < a {
                Err(Error::InvalidDecreasingRange { s: s.to_owned() })
            } else {
                Ok(Range::Between(a, b))
            },
            Some(r) => Ok(r),
        }
    }
}

/// The pieces of `s` between the occurrences of `d`, as `str::split` gives
/// them: `n` occurrences make `n + 1` pieces.
pub open spec fn split_on(s: Seq<char>, d: char) -> Seq<Seq<char>>
    decreases s.len(),
{
    if s.len() == 0 {
        seq![Seq::empty()]
    } else {
        let p = split_on(s.drop_last(), d);
        if s.last() == d {
            p.push(Seq::empty())
        } else {
            p.update(p.len() - 1, p.last().push(s.last()))
        }
    }
}

pub proof fn lemma_split_on_nonempty(s: Seq<char>, d: char)
    ensures
        split_on(s, d).len() >= 1,
    decreases s.len(),
{
    if s.len() > 0 {
        lemma_split_on_nonempty(s.drop_last(), d);
    }
}

pub open spec fn is_parsed(sel: Selector) -> bool {
    sel is Parsed
}

/// Growing the text changes only the last piece of a prefix's split.
proof fn lemma_split_stable(s: Seq<char>, d: char, i: int)
    requires
        0 <= i <= s.len(),
    ensures
        split_on(s.take(i), d).len() <= split_on(s, d).len(),
        forall|m: int|
            0 <= m < split_on(s.take(i), d).len() - 1 ==> split_on(s.take(i), d)[m]
                == #[trigger] split_on(s, d)[m],
    decreases s.len() - i,
{
    lemma_split_on_nonempty(s.take(i), d);
    if i < s.len() {
        lemma_split_stable(s, d, i + 1);
        assert(s.take(i + 1).drop_last() =~= s.take(i));
        lemma_split_on_nonempty(s.take(i + 1), d);
    } else {
        assert(s.take(i) =~= s);
    }
}

/// A set of column selectors.
#[derive(Debug, Clone)]
pub struct Ranges(pub Vec<Range>);

impl Ranges {
    pub open spec fn spec_any_contains(&self, n: int) -> bool {
        exists|i: int| 0 <= i < self.0@.len() && (#[trigger] self.0@[i]).spec_contains(n)
    }

    /// Parses a list of selectors separated by `delimiter`; the first
    /// selector that fails gives the error.
    pub fn parse_list(text: &str, delimiter: char) -> (r: Result<Ranges, Error>)
        ensures
            ({
                let pieces = split_on(text@, delimiter);
                match r {
                    Ok(rs) => {
                        &&& rs.0@.len() == pieces.len()
                        &&& forall|k: int|
                            0 <= k < pieces.len() ==> spec_parse_range(#[trigger] pieces[k])
                                == Selector::Parsed(rs.0@[k])
                    },
                    Err(e) => exists|k: int|
                        0 <= k < pieces.len() && !is_parsed(spec_parse_range(#[trigger] pieces[k]))
                            && parse_outcome(Err(e), pieces[k]) && forall|m: int|
                            0 <= m < k ==> is_parsed(spec_parse_range(#[trigger] pieces[m])),
                }
            }),
    {
        let n = text.unicode_len();
        let mut found: Vec<Range> = Vec::new();
        let mut start: usize = 0;
        let mut i: usize = 0;
        while i <= n
            invariant
                n == text@.len(),
                start <= i <= n,
                ({
                    let pieces = split_on(text@.take(i as int), delimiter);
                    &&& pieces.len() == found@.len() + 1
                    &&& pieces.last() == text@.subrange(start as int, i as int)
                    &&& forall|k: int|
                        0 <= k < found@.len() ==> spec_parse_range(#[trigger] pieces[k])
                            == Selector::Parsed(found@[k])
                }),
            decreases n + 1 - i,
        {
            if i == n || text.get_char(i) == delimiter {
                let piece = text.substring_char(start, i);
                let parsed = Range::from_str(piece);
                let ghost pieces = split_on(text@.take(i as int), delimiter);
                match parsed {
                    Ok(rg) => {
                        proof {
                            assert(spec_parse_range(piece@) == Selector::Parsed(rg));
                        }
                        found.push(rg);
                    },
                    Err(e) => {
                        proof {
                            let k = found@.len() as int;
                            let all = split_on(text@, delimiter);
                            assert(piece@ == pieces[k]);
                            if i == n {
                                assert(text@.take(n as int) =~= text@);
                            } else {
                                assert(text@.take(i + 1).drop_last() =~= text@.take(i as int));
                                lemma_split_stable(text@, delimiter, i + 1);
                            }
                            assert(pieces[k] == all[k]);
                            assert(forall|m: int| 0 <= m < k ==> pieces[m] == all[m]);
                            assert(!is_parsed(spec_parse_range(all[k])));
                        }
                        return Err(e);
                    },
                }
                if i == n {
                    assert(text@.take(n as int) =~= text@);
                    return Ok(Ranges(found));
                }
                proof {
                    assert(text@.take(i + 1).drop_last() =~= text@.take(i as int));
                    assert(text@.subrange(i + 1, i + 1) =~= Seq::<char>::empty());
                }
                start = i + 1;
            } else {
                proof {
                    assert(text@.take(i + 1).drop_last() =~= text@.take(i as int));
                    assert(text@.subrange(start as int, i + 1) =~= text@.subrange(
                        start as int,
                        i as int,
                    ).push(text@[i as int]));
                }
            }
            i = i + 1;
        }
        Ok(Ranges(found))
    }

    pub fn new() -> (r: Ranges)
        ensures
            r.0@.len() == 0,
    {
        Ranges(Vec::new())
    }

    /// Whether some selector of the set takes column `n`.
    pub fn any_contains(&self, n: u32) -> (r: bool)
        ensures
            r == self.spec_any_contains(n as int),
    {
        let mut i: usize = 0;
        while i < self.0.len()
            invariant
                i <= self.0@.len(),
                forall|j: int| 0 <= j < i ==> !(#[trigger] self.0@[j]).spec_contains(n as int),
            decreases self.0@.len() - i,
        {
            if self.0[i].contains(n) {
                return true;
            }
            i = i + 1;
        }
        false
    }
}

} // verus!
