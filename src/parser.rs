use vstd::prelude::*;

verus! {

/// One line split into fields: each field is a span `[start, end)` of
/// character positions in the line.
#[derive(Debug)]
pub struct Row {
    parts: Vec<(usize, usize)>,
    line: String,
}

/// Spans in increasing order that do not overlap and stay within a text of
/// length `len`.
pub open spec fn spans_ordered(spans: Seq<(int, int)>, len: int) -> bool {
    &&& forall|i: int| 0 <= i < spans.len() ==> 0 <= (#[trigger] spans[i]).0 <= spans[i].1 <= len
    &&& forall|i: int| 0 <= i < spans.len() - 1 ==> (#[trigger] spans[i]).1 <= spans[i + 1].0
}

/// The texts that the spans pick out of `line`.
pub open spec fn span_texts(line: Seq<char>, spans: Seq<(int, int)>) -> Seq<Seq<char>> {
    Seq::new(spans.len(), |i: int| line.subrange(spans[i].0, spans[i].1))
}

impl Row {
    #[verifier::type_invariant]
    spec fn inv(self) -> bool {
        spans_ordered(self.spans(), self.line@.len() as int)
    }

    /// The line that the row was split from.
    pub closed spec fn text(self) -> Seq<char> {
        self.line@
    }

    /// The field spans, in order.
    pub closed spec fn spans(self) -> Seq<(int, int)> {
        Seq::new(self.parts@.len(), |i: int| (self.parts@[i].0 as int, self.parts@[i].1 as int))
    }

    /// The fields' texts, in order.
    pub open spec fn fields(self) -> Seq<Seq<char>> {
        span_texts(self.text(), self.spans())
    }

    pub fn new() -> (r: Row)
        ensures
            r.fields().len() == 0,
            r.text().len() == 0,
    {
        Row { parts: Vec::new(), line: String::new() }
    }

    /// The fields' texts, in order.
    pub fn get_parts(&self) -> (r: Vec<&str>)
        ensures
            r@.len() == self.fields().len(),
            forall|i: int| 0 <= i < r@.len() ==> (#[trigger] r@[i])@ == self.fields()[i],
    {
        let mut r: Vec<&str> = Vec::new();
        let mut i: usize = 0;
        while i < self.parts.len()
            invariant
                i <= self.parts@.len(),
                r@.len() == i,
                forall|j: int| 0 <= j < i ==> (#[trigger] r@[j])@ == self.fields()[j],
            decreases self.parts@.len() - i,
        {
            r.push(self.field(i));
            i = i + 1;
        }
        r
    }

    /// The text of field `i`.
    pub fn field(&self, i: usize) -> (r: &str)
        requires
            i < self.fields().len(),
        ensures
            r@ == self.fields()[i as int],
    {
        proof {
            use_type_invariant(self);
        }
        let (a, b) = self.parts[i];
        assert(self.spans()[i as int] == (a as int, b as int));
        self.line.as_str().substring_char(a, b)
    }

    pub fn len(&self) -> (r: usize)
        ensures
            r == self.fields().len(),
    {
        self.parts.len()
    }

    pub fn is_empty(&self) -> (r: bool)
        ensures
            r == (self.fields().len() == 0),
    {
        self.parts.len() == 0
    }
}

/// Where the scan of a line stands.
#[derive(Debug, Clone, Copy, PartialEq, Eq, Structural)]
pub enum ScanState {
    /// Between fields.
    Whitespace,
    /// Inside a plain field.
    NonWhitespace,
    /// Inside a group that the given character closes.
    EndDelim(char),
}

/// The scan of a line after some of its characters: the state, where the open
/// field began, and the spans emitted so far.
pub struct Scan {
    pub state: ScanState,
    pub start: int,
    pub spans: Seq<(int, int)>,
}

/// The character that closes a group opened by `c`, if `c` opens one.
pub open spec fn group_closer(c: char) -> Option<char> {
    if c == '(' {
        Some(')')
    } else if c == '[' {
        Some(']')
    } else if c == '"' {
        Some('"')
    } else {
        None
    }
}

/// One step of the scan, on the character `c` at position `i`.
pub open spec fn scan_step(sc: Scan, i: int, c: char, delim: Seq<char>, strict: bool) -> Scan {
    match sc.state {
        ScanState::Whitespace => if !strict && group_closer(c) is Some {
            Scan { state: ScanState::EndDelim(group_closer(c)->0), start: i, spans: sc.spans }
        } else if !delim.contains(c) {
            Scan { state: ScanState::NonWhitespace, start: i, spans: sc.spans }
        } else if strict {
            Scan { spans: sc.spans.push((i, i)), ..sc }
        } else {
            sc
        },
        ScanState::NonWhitespace => if delim.contains(c) {
            Scan { state: ScanState::Whitespace, start: sc.start, spans: sc.spans.push((sc.start, i)) }
        } else {
            sc
        },
        ScanState::EndDelim(e) => if c == e {
            Scan {
                state: ScanState::Whitespace,
                start: sc.start,
                spans: sc.spans.push((sc.start, i + 1)),
            }
        } else {
            sc
        },
    }
}

/// The scan after the first `k` characters of `line`.
pub open spec fn scan_prefix(line: Seq<char>, delim: Seq<char>, strict: bool, k: nat) -> Scan
    decreases k,
{
    if k == 0 {
        Scan { state: ScanState::Whitespace, start: 0, spans: Seq::empty() }
    } else {
        scan_step(
            scan_prefix(line, delim, strict, (k - 1) as nat),
            k - 1,
            line[k - 1],
            delim,
            strict,
        )
    }
}

/// The field spans of `line`: a plain field still open at the end runs to the
/// end, a group still open is dropped, and in strict mode a line that ends
/// between fields ends with one empty field.
pub open spec fn tokenize(line: Seq<char>, delim: Seq<char>, strict: bool) -> Seq<(int, int)> {
    let sc = scan_prefix(line, delim, strict, line.len());
    match sc.state {
        ScanState::NonWhitespace => sc.spans.push((sc.start, line.len() as int)),
        ScanState::Whitespace => if strict {
            sc.spans.push((line.len() as int, line.len() as int))
        } else {
            sc.spans
        },
        ScanState::EndDelim(_) => sc.spans,
    }
}

/// Splits lines into fields.
pub struct RowParser {
    delim: Vec<char>,
    strict_delim: bool,
}

fn chars_of(s: &str) -> (r: Vec<char>)
    ensures
        r@ == s@,
{
    let n = s.unicode_len();
    let mut r: Vec<char> = Vec::new();
    let mut i: usize = 0;
    while i < n
        invariant
            i <= n == s@.len(),
            r@ == s@.take(i as int),
        decreases n - i,
    {
        r.push(s.get_char(i));
        i = i + 1;
        assert(r@ =~= s@.take(i as int));
    }
    assert(s@.take(n as int) =~= s@);
    r
}

impl RowParser {
    /// The characters that separate fields.
    pub closed spec fn delimiters(&self) -> Seq<char> {
        self.delim@
    }

    /// Whether empty fields are kept (strict mode).
    pub closed spec fn strict(&self) -> bool {
        self.strict_delim
    }

    pub fn new(delim: &str, strict_delim: bool) -> (r: RowParser)
        ensures
            r.delimiters() == delim@,
            r.strict() == strict_delim,
    {
        RowParser { delim: chars_of(delim), strict_delim }
    }

    fn is_delim(&self, c: char) -> (r: bool)
        ensures
            r == self.delim@.contains(c),
    {
        let mut i: usize = 0;
        while i < self.delim.len()
            invariant
                i <= self.delim@.len(),
                forall|j: int| 0 <= j < i ==> self.delim@[j] != c,
            decreases self.delim@.len() - i,
        {
            if self.delim[i] == c {
                return true;
            }
            i = i + 1;
        }
        false
    }

    /// Splits `line` into `row`, whose earlier contents are replaced.
    pub fn parse_into(&self, row: &mut Row, line: &str)
        ensures
            final(row).text() == line@,
            final(row).spans() == tokenize(line@, self.delimiters(), self.strict()),
            spans_ordered(final(row).spans(), line@.len() as int),
    {
        let chars = chars_of(line);
        let ghost delim = self.delim@;
        let ghost strict = self.strict_delim;
        let mut parts: Vec<(usize, usize)> = Vec::new();
        let mut state = ScanState::Whitespace;
        let mut start: usize = 0;
        let mut i: usize = 0;
        let n = chars.len();
        while i < n
            invariant
                n == chars@.len() == line@.len(),
                i <= n,
                chars@ == line@,
                delim == self.delim@,
                strict == self.strict_delim,
                ({
                    let sc = scan_prefix(line@, delim, strict, i as nat);
                    &&& sc.state == state
                    &&& sc.start == start
                    &&& sc.spans == Seq::new(parts@.len(), |j: int| (parts@[j].0 as int, parts@[j].1 as int))
                }),
                forall|j: int| 0 <= j < parts@.len() ==> (#[trigger] parts@[j]).0 <= parts@[j].1 <= i,
                forall|j: int| 0 <= j < parts@.len() - 1 ==> (#[trigger] parts@[j]).1 <= parts@[j + 1].0,
                state != ScanState::Whitespace ==> start < i,
                state != ScanState::Whitespace && parts@.len() > 0 ==> parts@.last().1 <= start,
            decreases n - i,
        {
            let ch = chars[i];
            let ghost sc0 = scan_prefix(line@, delim, strict, i as nat);
            assert(scan_prefix(line@, delim, strict, (i + 1) as nat) == scan_step(
                sc0,
                i as int,
                ch,
                delim,
                strict,
            ));
            match state {
                ScanState::Whitespace => {
                    if !self.strict_delim && (ch == '(' || ch == '[' || ch == '"') {
                        let end_delim = if ch == '(' {
                            ')'
                        } else if ch == '[' {
                            ']'
                        } else {
                            '"'
                        };
                        start = i;
                        state = ScanState::EndDelim(end_delim);
                    } else if !self.is_delim(ch) {
                        start = i;
                        state = ScanState::NonWhitespace;
                    } else if self.strict_delim {
                        parts.push((i, i));
                    }
                },
                ScanState::NonWhitespace => {
                    if self.is_delim(ch) {
                        parts.push((start, i));
                        state = ScanState::Whitespace;
                    }
                },
                ScanState::EndDelim(e) => {
                    if ch == e {
                        parts.push((start, i + 1));
                        state = ScanState::Whitespace;
                    }
                },
            }
            assert(Seq::new(parts@.len(), |j: int| (parts@[j].0 as int, parts@[j].1 as int))
                =~= scan_prefix(line@, delim, strict, (i + 1) as nat).spans);
            i = i + 1;
        }
        match state {
            ScanState::NonWhitespace => {
                parts.push((start, n));
            },
            ScanState::Whitespace => {
                if self.strict_delim {
                    parts.push((n, n));
                }
            },
            ScanState::EndDelim(_) => {},
        }
        proof {
            let sp = Seq::new(parts@.len(), |j: int| (parts@[j].0 as int, parts@[j].1 as int));
            assert(sp =~= tokenize(line@, delim, strict));
        }
        let text = line.to_owned();
        *row = Row { parts, line: text };
    }
}

} // verus!
