//! Paths into a document.

use vstd::prelude::*;
use vstd::string::StrSliceExecFns;

use crate::error::{Error, ErrorKind, Result};
use crate::value::{Value, ValueView};

verus! {

/// The mathematical value of a [`PathSegment`].
pub ghost enum SegmentView {
    Key(Seq<char>),
    Index(nat),
}

/// A segment in a path: a map key or an array index.
#[derive(Clone, Debug, PartialEq)]
pub enum PathSegment {
    Key(String),
    Index(usize),
}

impl View for PathSegment {
    type V = SegmentView;

    open spec fn view(&self) -> SegmentView {
        match self {
            PathSegment::Key(k) => SegmentView::Key(k@),
            PathSegment::Index(i) => SegmentView::Index(*i as nat),
        }
    }
}

/// A path in the document: the segments from the root down.
#[derive(Clone, Debug, PartialEq)]
pub struct Path {
    inner: Vec<PathSegment>,
}

impl View for Path {
    type V = Seq<SegmentView>;

    closed spec fn view(&self) -> Seq<SegmentView> {
        self.inner@.map_values(|s: PathSegment| s@)
    }
}

impl PathSegment {
    /// A key segment.
    pub fn key(k: String) -> (s: Self)
        ensures
            s@ == SegmentView::Key(k@),
    {
        PathSegment::Key(k)
    }

    /// An index segment.
    pub fn index(i: usize) -> (s: Self)
        ensures
            s@ == SegmentView::Index(i as nat),
    {
        PathSegment::Index(i)
    }

    /// Whether two segments are equal.
    pub fn same(&self, other: &Self) -> (b: bool)
        ensures
            b == (self@ == other@),
    {
        match (self, other) {
            (PathSegment::Key(a), PathSegment::Key(b)) => *a == *b,
            (PathSegment::Index(a), PathSegment::Index(b)) => *a == *b,
            _ => false,
        }
    }

    /// A copy of the segment.
    pub fn duplicate(&self) -> (s: Self)
        ensures
            s@ == self@,
    {
        match self {
            PathSegment::Key(k) => PathSegment::Key(k.clone()),
            PathSegment::Index(i) => PathSegment::Index(*i),
        }
    }
}

impl Path {
    /// The empty path, which names the root.
    pub fn empty() -> (p: Self)
        ensures
            p@ == Seq::<SegmentView>::empty(),
    {
        Path { inner: Vec::new() }
    }

    /// The path of `inner`'s segments.
    pub fn new(inner: Vec<PathSegment>) -> (p: Self)
        ensures
            p@ == inner@.map_values(|s: PathSegment| s@),
    {
        Path { inner }
    }

    /// Parses the text of a path: segments separated by dots, an index where
    /// a segment starts with a digit, else a key, which holds no quote or
    /// backslash; a quote stands for an empty key. An index with another
    /// character than a digit before the next dot, an empty segment, and a
    /// quote or backslash inside a key are `InvalidData` errors.
    pub fn parse(path: &str) -> (r: Result<Path>)
        requires
            !(parse_from(path@, 0) is Overflow),
        ensures
            match parse_from(path@, 0) {
                PathParse::Parsed(segs) => r matches Ok(p) && p@ == segs,
                _ => r matches Err(e) && e.spec_kind() == ErrorKind::InvalidData,
            },
    {
        let ghost c = path@;
        let n = path.unicode_len();
        let mut chars: Vec<char> = Vec::new();
        while chars.len() < n
            invariant
                c == path@,
                n == c.len(),
                chars@.len() <= n,
                forall|j: int| 0 <= j < chars@.len() ==> chars@[j] == c[j],
            decreases n - chars@.len(),
        {
            let ch = path.get_char(chars.len());
            chars.push(ch);
        }
        proof {
            assert(chars@ =~= c);
        }
        let mut segments: Vec<PathSegment> = Vec::new();
        let mut i: usize = 0;
        proof {
            assert(segments@.map_values(|x: PathSegment| x@) =~= Seq::<SegmentView>::empty());
            match parse_from(c, 0) {
                PathParse::Parsed(s) => {
                    assert(Seq::<SegmentView>::empty() + s =~= s);
                },
                _ => {},
            }
        }
        while i < n
            invariant
                c == path@,
                n == c.len(),
                chars@ == c,
                i <= n,
                !(parse_from(c, 0) is Overflow),
                parse_from(c, 0) == parse_after(
                    segments@.map_values(|x: PathSegment| x@),
                    parse_from(c, i as int),
                ),
            decreases n - i,
        {
            let ghost done = segments@.map_values(|x: PathSegment| x@);
            let ghost start = i as int;
            let ch = chars[i];
            let seg: PathSegment;
            if '0' <= ch && ch <= '9' {
                let mut num: usize = 0;
                proof {
                    assert(!(parse_from(c, start) is Overflow));
                    assert(scan_digits(c, start, 0).2 != 2);
                }
                loop
                    invariant_except_break
                        scan_digits(c, start, 0) == scan_digits(c, i as int, num as nat),
                    invariant
                        c == path@,
                        n == c.len(),
                        chars@ == c,
                        start <= i <= n,
                        start < n,
                        is_digit(c[start]),
                        !(parse_from(c, 0) is Overflow),
                        parse_from(c, 0) == parse_after(done, parse_from(c, start)),
                        scan_digits(c, start, 0).2 != 2,
                    ensures
                        i <= n,
                        start < i,
                        scan_digits(c, start, 0) == (num as nat, i as int, 0u8),
                    decreases n - i,
                {
                    if i >= n {
                        break;
                    }
                    let d = chars[i];
                    if '0' <= d && d <= '9' {
                        num = num * 10 + (d as usize - '0' as usize);
                        i += 1;
                    } else if d == '.' {
                        i += 1;
                        break;
                    } else {
                        return Err(
                            Error::new(ErrorKind::InvalidData, "expected digit").with_metadata(
                                "index",
                                i,
                            ),
                        );
                    }
                }
                seg = PathSegment::Index(num);
            } else if ch == '.' {
                return Err(
                    Error::new(ErrorKind::InvalidData, "unexpected character '.'").with_metadata(
                        "index",
                        i,
                    ),
                );
            } else if ch == '\'' {
                i += 1;
                seg = PathSegment::Key(String::new());
            } else {
                let begin = i;
                let mut end = i;
                loop
                    invariant_except_break
                        scan_key(c, start) == scan_key(c, i as int),
                    invariant
                        c == path@,
                        n == c.len(),
                        chars@ == c,
                        start <= i <= n,
                        start < n,
                        begin == start,
                        parse_from(c, 0) == parse_after(done, parse_from(c, start)),
                        !is_digit(c[start]) && c[start] != '.' && c[start] != '\'',
                    ensures
                        start <= end <= i <= n,
                        start < i,
                        scan_key(c, start) == (end as int, i as int, true),
                    decreases n - i,
                {
                    if i >= n {
                        end = i;
                        break;
                    }
                    let d = chars[i];
                    if d == '.' {
                        end = i;
                        i += 1;
                        break;
                    } else if d == '\'' || d == '\\' {
                        return Err(Error::new(ErrorKind::InvalidData, "invalid character in key"));
                    } else {
                        i += 1;
                    }
                }
                let key = path.substring_char(begin, end).to_owned();
                seg = PathSegment::Key(key);
            }
            proof {
                assert(parse_from(c, start) == parse_prepend(seg@, parse_from(c, i as int)));
                match parse_from(c, i as int) {
                    PathParse::Parsed(rest) => {
                        assert(done + (seq![seg@] + rest) =~= done.push(seg@) + rest);
                    },
                    _ => {},
                }
                assert(segments@.push(seg).map_values(|x: PathSegment| x@) =~= done.push(seg@));
            }
            segments.push(seg);
        }
        proof {
            assert(segments@.map_values(|x: PathSegment| x@) + Seq::<SegmentView>::empty()
                =~= segments@.map_values(|x: PathSegment| x@));
        }
        Ok(Path { inner: segments })
    }

    /// Whether the path has no segment.
    pub fn is_empty(&self) -> (b: bool)
        ensures
            b == (self@.len() == 0),
    {
        self.inner.len() == 0
    }

    /// The segments.
    pub fn segments(&self) -> (s: &[PathSegment])
        ensures
            s@.map_values(|x: PathSegment| x@) == self@,
    {
        self.inner.as_slice()
    }

    /// Appends a segment.
    pub fn push_segment(&mut self, segment: PathSegment)
        ensures
            final(self)@ == old(self)@.push(segment@),
    {
        self.inner.push(segment);
        proof {
            assert(self@ =~= old(self)@.push(segment@));
        }
    }

    /// Removes and returns the last segment.
    pub fn pop_segment(&mut self) -> (s: Option<PathSegment>)
        ensures
            old(self)@.len() == 0 ==> s is None && final(self)@ == old(self)@,
            old(self)@.len() > 0 ==> (s matches Some(x) && x@ == old(self)@.last() && final(self)@
                == old(self)@.drop_last()),
    {
        let s = self.inner.pop();
        proof {
            if old(self)@.len() > 0 {
                assert(self@ =~= old(self)@.drop_last());
            }
        }
        s
    }

    /// Whether two paths are equal.
    pub fn same(&self, other: &Self) -> (b: bool)
        ensures
            b == (self@ == other@),
    {
        if self.inner.len() != other.inner.len() {
            proof {
                assert(self@.len() != other@.len());
            }
            return false;
        }
        let mut i: usize = 0;
        while i < self.inner.len()
            invariant
                self.inner@.len() == other.inner@.len(),
                i <= self.inner@.len(),
                forall|j: int| 0 <= j < i ==> self@[j] == other@[j],
            decreases self.inner@.len() - i,
        {
            if !self.inner[i].same(&other.inner[i]) {
                proof {
                    assert(self@[i as int] != other@[i as int]);
                }
                return false;
            }
            i += 1;
        }
        proof {
            assert(self@ =~= other@);
        }
        true
    }

    /// A copy of the path.
    pub fn duplicate(&self) -> (p: Self)
        ensures
            p@ == self@,
    {
        let mut inner: Vec<PathSegment> = Vec::new();
        let mut i: usize = 0;
        while i < self.inner.len()
            invariant
                i <= self.inner@.len(),
                inner@.len() == i,
                forall|j: int| 0 <= j < i ==> inner@[j]@ == self@[j],
            decreases self.inner@.len() - i,
        {
            inner.push(self.inner[i].duplicate());
            i += 1;
        }
        let p = Path { inner };
        proof {
            assert(p@ =~= self@);
        }
        p
    }
}

/// The outcome of parsing a path's text.
pub ghost enum PathParse {
    Parsed(Seq<SegmentView>),
    Failed,
    /// An index beyond the machine's word.
    Overflow,
}

/// Whether `c` is an ASCII digit.
pub open spec fn is_digit(c: char) -> bool {
    '0' <= c <= '9'
}

/// Reads the digits of an index from `i` on, `acc` being the number read so
/// far: the number and where reading stops, after a `.` that ends it; a
/// character that is neither fails (code 1), and a number beyond the
/// machine's word overflows (code 2).
pub open spec fn scan_digits(c: Seq<char>, i: int, acc: nat) -> (nat, int, u8)
    decreases c.len() - i,
{
    if i < 0 || i >= c.len() {
        (acc, i, 0)
    } else if is_digit(c[i]) {
        let v: nat = (acc * 10 + (c[i] as int - '0' as int)) as nat;
        if v > usize::MAX {
            (v, i, 2)
        } else {
            scan_digits(c, i + 1, v)
        }
    } else if c[i] == '.' {
        (acc, i + 1, 0)
    } else {
        (acc, i, 1)
    }
}

/// Reads a plain key from `i` on: where it ends and where reading stops,
/// after a `.` that ends it; a quote or a backslash fails.
pub open spec fn scan_key(c: Seq<char>, i: int) -> (int, int, bool)
    decreases c.len() - i,
{
    if i < 0 || i >= c.len() {
        (i, i, true)
    } else if c[i] == '.' {
        (i, i + 1, true)
    } else if c[i] == '\'' || c[i] == '\\' {
        (i, i, false)
    } else {
        scan_key(c, i + 1)
    }
}

/// A parse outcome with `seg` put in front.
pub open spec fn parse_prepend(seg: SegmentView, r: PathParse) -> PathParse {
    match r {
        PathParse::Parsed(s) => PathParse::Parsed(seq![seg] + s),
        other => other,
    }
}

/// Parses the path text `c` from `i` on: segments separated by dots, an
/// index where a segment starts with a digit, else a key; a quote stands
/// for an empty key.
pub open spec fn parse_from(c: Seq<char>, i: int) -> PathParse
    decreases c.len() - i,
{
    if i < 0 || i >= c.len() {
        PathParse::Parsed(Seq::empty())
    } else if is_digit(c[i]) {
        let (v, next, code) = scan_digits(c, i, 0);
        if code == 1 {
            PathParse::Failed
        } else if code == 2 {
            PathParse::Overflow
        } else if next <= i || next > c.len() {
            PathParse::Failed
        } else {
            parse_prepend(SegmentView::Index(v), parse_from(c, next))
        }
    } else if c[i] == '.' {
        PathParse::Failed
    } else if c[i] == '\'' {
        parse_prepend(SegmentView::Key(Seq::empty()), parse_from(c, i + 1))
    } else {
        let (end, next, ok) = scan_key(c, i);
        if !ok || next <= i || next > c.len() || end < i || end > c.len() {
            PathParse::Failed
        } else {
            parse_prepend(SegmentView::Key(c.subrange(i, end)), parse_from(c, next))
        }
    }
}

/// A parse outcome with `segs` put in front.
pub open spec fn parse_after(segs: Seq<SegmentView>, r: PathParse) -> PathParse {
    match r {
        PathParse::Parsed(s) => PathParse::Parsed(segs + s),
        other => other,
    }
}

/// The character of the decimal digit `d`.
pub open spec fn digit_char(d: nat) -> char {
    if d == 0 {
        '0'
    } else if d == 1 {
        '1'
    } else if d == 2 {
        '2'
    } else if d == 3 {
        '3'
    } else if d == 4 {
        '4'
    } else if d == 5 {
        '5'
    } else if d == 6 {
        '6'
    } else if d == 7 {
        '7'
    } else if d == 8 {
        '8'
    } else {
        '9'
    }
}

/// The decimal digits of `n`.
pub open spec fn decimal(n: nat) -> Seq<char>
    decreases n,
{
    if n < 10 {
        seq![digit_char(n)]
    } else {
        decimal(n / 10).push(digit_char(n % 10))
    }
}

/// The number that the digits `d` give, read after the number `acc`.
pub open spec fn digits_value(acc: nat, d: Seq<char>) -> nat
    decreases d.len(),
{
    if d.len() == 0 {
        acc
    } else {
        digits_value((acc * 10 + (d[0] as int - '0' as int)) as nat, d.drop_first())
    }
}

/// The text of a segment: a key as it is, an index in decimal.
pub open spec fn segment_text(s: SegmentView) -> Seq<char> {
    match s {
        SegmentView::Key(k) => k,
        SegmentView::Index(i) => decimal(i),
    }
}

/// The text of a path: its segments joined by dots.
pub open spec fn path_text(segs: Seq<SegmentView>) -> Seq<char>
    decreases segs.len(),
{
    if segs.len() == 0 {
        Seq::empty()
    } else if segs.len() == 1 {
        segment_text(segs[0])
    } else {
        segment_text(segs[0]) + seq!['.'] + path_text(segs.drop_first())
    }
}

/// A key that reads back as itself: not empty, not starting with a digit,
/// and holding no dot, quote or backslash.
pub open spec fn plain_key(k: Seq<char>) -> bool {
    &&& k.len() > 0
    &&& !is_digit(k[0])
    &&& forall|j: int| 0 <= j < k.len() ==> #[trigger] k[j] != '.' && k[j] != '\'' && k[j] != '\\'
}

/// Whether each segment reads back as itself: plain keys, and indices that
/// fit in a machine word.
pub open spec fn plain_path(segs: Seq<SegmentView>) -> bool {
    forall|i: int|
        0 <= i < segs.len() ==> match #[trigger] segs[i] {
            SegmentView::Key(k) => plain_key(k),
            SegmentView::Index(n) => n <= usize::MAX,
        }
}

/// The character of a decimal digit is a digit, of that value.
proof fn lemma_digit_char(d: nat)
    requires
        d < 10,
    ensures
        is_digit(digit_char(d)),
        digit_char(d) as int - '0' as int == d,
{
}

/// Appending a digit multiplies by ten and adds it.
proof fn lemma_digits_push(acc: nat, d: Seq<char>, x: char)
    requires
        is_digit(x),
        forall|j: int| 0 <= j < d.len() ==> is_digit(#[trigger] d[j]),
    ensures
        digits_value(acc, d.push(x)) == digits_value(acc, d) * 10 + (x as int - '0' as int),
    decreases d.len(),
{
    let xd = x as int - '0' as int;
    assert(0 <= xd <= 9);
    if d.len() == 0 {
        assert(d.push(x).drop_first() =~= Seq::<char>::empty());
        assert(d.push(x)[0] == x);
        assert(digits_value(acc, d.push(x)) == digits_value((acc * 10 + xd) as nat, Seq::<char>::empty()));
    } else {
        assert(is_digit(d[0]));
        let a2 = (acc * 10 + (d[0] as int - '0' as int)) as nat;
        assert(d.push(x).drop_first() =~= d.drop_first().push(x));
        assert(d.push(x)[0] == d[0]);
        assert forall|j: int| 0 <= j < d.drop_first().len() implies is_digit(#[trigger] d.drop_first()[j]) by {
            assert(d.drop_first()[j] == d[j + 1]);
        }
        lemma_digits_push(a2, d.drop_first(), x);
        assert(digits_value(acc, d.push(x)) == digits_value(a2, d.push(x).drop_first()));
        assert(digits_value(acc, d) == digits_value(a2, d.drop_first()));
    }
}

/// The digits of `n` are digits, and give `n`; no prefix of them gives more.
proof fn lemma_decimal(n: nat)
    ensures
        decimal(n).len() > 0,
        forall|j: int| 0 <= j < decimal(n).len() ==> is_digit(#[trigger] decimal(n)[j]),
        digits_value(0, decimal(n)) == n,
        forall|k: int| 0 <= k <= decimal(n).len() ==> #[trigger] digits_value(0, decimal(n).take(k)) <= n,
    decreases n,
{
    let d = decimal(n);
    if n < 10 {
        lemma_digit_char(n);
        assert(d.drop_first() =~= Seq::<char>::empty());
        assert(d.take(0) =~= Seq::<char>::empty());
        assert(d.take(1) =~= d);
        assert(digits_value(0, d) == digits_value((0 * 10 + (d[0] as int - '0' as int)) as nat, d.drop_first()));
    } else {
        let p = decimal(n / 10);
        lemma_decimal(n / 10);
        let x = digit_char(n % 10);
        lemma_digit_char(n % 10);
        assert(d == p.push(x));
        lemma_digits_push(0, p, x);
        assert((n / 10) * 10 + n % 10 == n) by (nonlinear_arith);
        assert forall|j: int| 0 <= j < d.len() implies is_digit(#[trigger] d[j]) by {
            if j < p.len() {
                assert(d[j] == p[j]);
            }
        }
        assert forall|k: int| 0 <= k <= d.len() implies #[trigger] digits_value(0, d.take(k)) <= n by {
            if k < d.len() {
                assert(d.take(k) =~= p.take(k));
                assert(digits_value(0, p.take(k)) <= n / 10);
            } else {
                assert(d.take(k) =~= d);
            }
        }
    }
}

/// Reading the digits `d` from `i` on, where a dot or the end follows them.
proof fn lemma_scan_digits_text(c: Seq<char>, i: int, d: Seq<char>, acc: nat)
    requires
        0 <= i,
        i + d.len() <= c.len(),
        c.subrange(i, i + d.len()) == d,
        forall|j: int| 0 <= j < d.len() ==> is_digit(#[trigger] d[j]),
        i + d.len() == c.len() || c[i + d.len()] == '.',
        forall|k: int| 1 <= k <= d.len() ==> #[trigger] digits_value(acc, d.take(k)) <= usize::MAX,
    ensures
        scan_digits(c, i, acc) == (
            digits_value(acc, d),
            if i + d.len() == c.len() {
                i + d.len()
            } else {
                i + d.len() + 1
            },
            0u8,
        ),
    decreases d.len(),
{
    if d.len() > 0 {
        assert(c[i] == c.subrange(i, i + d.len())[0]);
        let v = (acc * 10 + (d[0] as int - '0' as int)) as nat;
        assert(d.take(1).drop_first() =~= Seq::<char>::empty());
        assert(d.take(1)[0] == d[0]);
        assert(digits_value(acc, d.take(1)) == digits_value(v, d.take(1).drop_first()));
        assert(digits_value(acc, d.take(1)) == v);
        let r = d.drop_first();
        assert(c.subrange(i + 1, i + 1 + r.len()) =~= r) by {
            assert forall|j: int| 0 <= j < r.len() implies c.subrange(i + 1, i + 1 + r.len())[j] == r[j] by {
                assert(c.subrange(i, i + d.len())[j + 1] == d[j + 1]);
            }
        }
        assert forall|k: int| 1 <= k <= r.len() implies #[trigger] digits_value(v, r.take(k)) <= usize::MAX by {
            assert(d.take(k + 1).drop_first() =~= r.take(k));
            assert(digits_value(acc, d.take(k + 1)) <= usize::MAX);
        }
        lemma_scan_digits_text(c, i + 1, r, v);
    }
}

/// Reading a plain key from `j` on, up to `end`, where a dot or the end
/// follows it.
proof fn lemma_scan_key_text(c: Seq<char>, j: int, end: int)
    requires
        0 <= j <= end <= c.len(),
        forall|m: int| j <= m < end ==> #[trigger] c[m] != '.' && c[m] != '\'' && c[m] != '\\',
        end == c.len() || c[end] == '.',
    ensures
        scan_key(c, j) == (end, if end == c.len() {
            end
        } else {
            end + 1
        }, true),
    decreases end - j,
{
    if j < end {
        lemma_scan_key_text(c, j + 1, end);
    }
}

/// Parsing the text of a path from `i` on, where it stands up to the end.
#[verifier::spinoff_prover]
proof fn lemma_parse_text_at(c: Seq<char>, i: int, segs: Seq<SegmentView>)
    requires
        0 <= i <= c.len(),
        c.subrange(i, c.len() as int) == path_text(segs),
        plain_path(segs),
    ensures
        parse_from(c, i) == PathParse::Parsed(segs),
    decreases segs.len(),
{
    if segs.len() == 0 {
        assert(segs =~= Seq::<SegmentView>::empty());
    } else {
        let t = segment_text(segs[0]);
        let rest = segs.drop_first();
        let end = i + t.len();
        let next = if rest.len() == 0 {
            end
        } else {
            end + 1
        };
        if rest.len() == 0 {
            assert(path_text(segs) == t);
        } else {
            assert(path_text(segs) == t + seq!['.'] + path_text(rest));
        }
        let whole = c.subrange(i, c.len() as int);
        assert(end <= c.len());
        assert(c.subrange(i, end) =~= t) by {
            assert forall|m: int| 0 <= m < t.len() implies c.subrange(i, end)[m] == t[m] by {
                assert(whole[m] == c[i + m]);
            }
        }
        if rest.len() > 0 {
            assert(whole[t.len() as int] == '.');
            assert(c[end] == '.');
            assert(c.subrange(next, c.len() as int) =~= path_text(rest)) by {
                assert forall|m: int| 0 <= m < c.len() - next implies c.subrange(next, c.len() as int)[m]
                    == path_text(rest)[m] by {
                    assert(whole[t.len() + 1 + m] == c[next + m]);
                }
            }
        } else {
            assert(end == c.len());
            assert(c.subrange(next, c.len() as int) =~= Seq::<char>::empty());
            assert(path_text(rest) =~= Seq::<char>::empty());
        }
        assert forall|m: int| 0 <= m < rest.len() implies match #[trigger] rest[m] {
            SegmentView::Key(k) => plain_key(k),
            SegmentView::Index(n) => n <= usize::MAX,
        } by {
            assert(rest[m] == segs[m + 1]);
        }
        lemma_parse_text_at(c, next, rest);
        assert(segs[0] == segs[0]);
        match segs[0] {
            SegmentView::Key(k) => {
                assert(plain_key(k));
                assert(c[i] == k[0]);
                assert forall|m: int| i <= m < end implies #[trigger] c[m] != '.' && c[m] != '\'' && c[m]
                    != '\\' by {
                    assert(c[m] == k[m - i]);
                }
                lemma_scan_key_text(c, i, end);
            },
            SegmentView::Index(n) => {
                lemma_decimal(n);
                assert(c[i] == t[0]);
                assert forall|k: int| 1 <= k <= t.len() implies #[trigger] digits_value(0, t.take(k))
                    <= usize::MAX by {
                    assert(digits_value(0, decimal(n).take(k)) <= n);
                }
                lemma_scan_digits_text(c, i, t, 0);
            },
        }
        assert(seq![segs[0]] + rest =~= segs);
    }
}

/// Law: parsing the text of a path gives the path back, when each key is
/// plain (not empty, not starting with a digit, with no dot, quote or
/// backslash) and each index fits in a machine word.
pub proof fn lemma_parse_path_text(segs: Seq<SegmentView>)
    requires
        plain_path(segs),
    ensures
        parse_from(path_text(segs), 0) == PathParse::Parsed(segs),
{
    let c = path_text(segs);
    assert(c.subrange(0, c.len() as int) =~= c);
    lemma_parse_text_at(c, 0, segs);
}

/// The mathematical value of an [`Action`].
pub ghost enum ActionView {
    Snapshot(ValueView),
    Add(Seq<SegmentView>, ValueView),
    Replace(Seq<SegmentView>, ValueView),
    Delete(Seq<SegmentView>),
    Copy(Seq<SegmentView>, Seq<SegmentView>),
}

/// A change to a document.
#[derive(Debug, PartialEq)]
pub enum Action {
    /// Replaces the whole document with `value`.
    Snapshot { value: Value },
    /// Adds `value` at `path`.
    Add { path: Path, value: Value },
    /// Replaces the value at `path` with `value`.
    Replace { path: Path, value: Value },
    /// Deletes the value at `path`.
    Delete { path: Path },
    /// Copies the value at `from` to `path`.
    Copy { path: Path, from: Path },
}

impl View for Action {
    type V = ActionView;

    open spec fn view(&self) -> ActionView {
        match self {
            Action::Snapshot { value } => ActionView::Snapshot(value@),
            Action::Add { path, value } => ActionView::Add(path@, value@),
            Action::Replace { path, value } => ActionView::Replace(path@, value@),
            Action::Delete { path } => ActionView::Delete(path@),
            Action::Copy { path, from } => ActionView::Copy(path@, from@),
        }
    }
}

impl Action {
    /// A snapshot of `value`.
    pub fn snapshot(value: Value) -> (a: Self)
        ensures
            a@ == ActionView::Snapshot(value@),
    {
        Action::Snapshot { value }
    }

    /// An addition of `value` at `path`.
    pub fn add(path: Path, value: Value) -> (a: Self)
        ensures
            a@ == ActionView::Add(path@, value@),
    {
        Action::Add { path, value }
    }

    /// A deletion at `path`.
    pub fn delete(path: Path) -> (a: Self)
        ensures
            a@ == ActionView::Delete(path@),
    {
        Action::Delete { path }
    }

    /// A replacement by `value` at `path`.
    pub fn replace(path: Path, value: Value) -> (a: Self)
        ensures
            a@ == ActionView::Replace(path@, value@),
    {
        Action::Replace { path, value }
    }

    /// A copy to `path` of the value at `from`.
    pub fn copy(path: Path, from: Path) -> (a: Self)
        ensures
            a@ == ActionView::Copy(path@, from@),
    {
        Action::Copy { path, from }
    }

    /// A copy of the action.
    pub fn duplicate(&self) -> (a: Self)
        ensures
            a@ == self@,
    {
        match self {
            Action::Snapshot { value } => Action::Snapshot { value: value.duplicate() },
            Action::Add { path, value } => Action::Add { path: path.duplicate(), value: value.duplicate() },
            Action::Replace { path, value } => Action::Replace {
                path: path.duplicate(),
                value: value.duplicate(),
            },
            Action::Delete { path } => Action::Delete { path: path.duplicate() },
            Action::Copy { path, from } => Action::Copy { path: path.duplicate(), from: from.duplicate() },
        }
    }
}

} // verus!
