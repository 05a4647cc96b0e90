//! The exposition-format parser: HELP and TYPE comments and
//! `name{label="value",...} value [timestamp]` lines.
use vstd::prelude::*;
use crate::keyed::{is_sorted, upsert};
use crate::labels::{escape, escape_byte, label_map, split_bytes, split_on, LabelList, BACKSLASH, NEWLINE, QUOTE};
use crate::router::{compare_equal, copy_bytes, views_of};
use crate::store::{
    distinct_names, kind_text, push_view, push_wf, FamilySpec, MetricKind, ParsedFamily, ParsedSample,
    SampleSpec,
};

verus! {

/// Why a push body was refused, with the index of the offending line.
#[derive(Debug, PartialEq, Eq, Structural)]
pub enum ParseError {
    /// A metric line that does not have the shape `name{labels} value [timestamp]`.
    MalformedLine(usize),
    /// A sample value that is not a number.
    InvalidValue(usize),
    /// A timestamp that is not an integer.
    InvalidTimestamp(usize),
    /// A TYPE line naming no known type.
    UnknownType(usize),
    /// A TYPE line that contradicts an earlier TYPE line for the same family.
    TypeRedeclared(usize),
}

pub open spec fn is_digit(b: u8) -> bool {
    0x30 <= b <= 0x39
}

pub open spec fn is_name_byte(b: u8) -> bool {
    is_digit(b) || (0x41 <= b <= 0x5a) || (0x61 <= b <= 0x7a) || b == 0x5f || b == 0x3a
}

/// The end of the run of decimal digits that starts at `p`.
pub open spec fn digits_end(s: Seq<u8>, p: int) -> int
    decreases s.len() - p,
{
    if 0 <= p < s.len() && is_digit(s[p]) {
        digits_end(s, p + 1)
    } else {
        p
    }
}

/// `Inf`, `+Inf`, `-Inf` or `NaN`.
pub open spec fn is_special_number(s: Seq<u8>) -> bool {
    s == seq![0x49u8, 0x6e, 0x66] || s == seq![0x2bu8, 0x49, 0x6e, 0x66] || s == seq![
        0x2du8,
        0x49,
        0x6e,
        0x66,
    ] || s == seq![0x4eu8, 0x61, 0x4e]
}

/// A decimal number, or a special value: an optional sign, integer digits, optionally a
/// point and fraction digits (at least one digit in all), then optionally `e` or `E`, an
/// optional sign and at least one exponent digit.
pub open spec fn is_number(s: Seq<u8>) -> bool {
    let a: int = if s.len() > 0 && (s[0] == 0x2b || s[0] == 0x2d) {
        1
    } else {
        0
    };
    let b = digits_end(s, a);
    let point = b < s.len() && s[b] == 0x2e;
    let c = if point {
        digits_end(s, b + 1)
    } else {
        b
    };
    let mantissa_digits = (b - a) + if point {
        c - b - 1
    } else {
        0
    };
    let exp = c < s.len() && (s[c] == 0x65 || s[c] == 0x45);
    let e0 = if exp && c + 1 < s.len() && (s[c + 1] == 0x2b || s[c + 1] == 0x2d) {
        c + 2
    } else {
        c + 1
    };
    let f = digits_end(s, e0);
    is_special_number(s) || (mantissa_digits > 0 && (c == s.len() || (exp && f > e0 && f
        == s.len())))
}

/// An integer with an optional minus sign.
pub open spec fn is_timestamp(s: Seq<u8>) -> bool {
    s.len() > 0 && (forall|i: int| 0 <= i < s.len() ==> is_digit(#[trigger] s[i]) || (i == 0
        && s[i] == 0x2d && s.len() > 1))
}

fn equals_literal(s: &Vec<u8>, lit: &Vec<u8>) -> (r: bool)
    ensures
        r == (s@ == lit@),
{
    compare_equal(s, lit)
}

/// Whether `s` is a number as a sample value writes it.
pub fn check_number(s: &Vec<u8>) -> (r: bool)
    ensures
        r == is_number(s@),
{
    let inf = vec![0x49u8, 0x6e, 0x66];
    let pinf = vec![0x2bu8, 0x49, 0x6e, 0x66];
    let ninf = vec![0x2du8, 0x49, 0x6e, 0x66];
    let nan = vec![0x4eu8, 0x61, 0x4e];
    assert(inf@ =~= seq![0x49u8, 0x6e, 0x66]);
    assert(pinf@ =~= seq![0x2bu8, 0x49, 0x6e, 0x66]);
    assert(ninf@ =~= seq![0x2du8, 0x49, 0x6e, 0x66]);
    assert(nan@ =~= seq![0x4eu8, 0x61, 0x4e]);
    if equals_literal(s, &inf) || equals_literal(s, &pinf) || equals_literal(s, &ninf)
        || equals_literal(s, &nan) {
        return true;
    }
    let n = s.len();
    let a: usize = if n > 0 && (s[0] == 0x2b || s[0] == 0x2d) {
        1
    } else {
        0
    };
    let b = scan_digits(s, a);
    let point = b < n && s[b] == 0x2e;
    let c = if point {
        scan_digits(s, b + 1)
    } else {
        b
    };
    let mantissa = b > a || (point && c > b + 1);
    if !mantissa {
        return false;
    }
    if c == n {
        return true;
    }
    let exp = s[c] == 0x65 || s[c] == 0x45;
    if !exp {
        return false;
    }
    let e0 = if c + 1 < n && (s[c + 1] == 0x2b || s[c + 1] == 0x2d) {
        c + 2
    } else {
        c + 1
    };
    let f = scan_digits(s, e0);
    f > e0 && f == n
}

/// The end of the run of digits in `s` that starts at `p`.
fn scan_digits(s: &Vec<u8>, p: usize) -> (r: usize)
    requires
        p <= s@.len(),
    ensures
        p <= r <= s@.len(),
        r == digits_end(s@, p as int),
{
    let mut i = p;
    while i < s.len() && 0x30 <= s[i] && s[i] <= 0x39
        invariant
            p <= i <= s@.len(),
            digits_end(s@, i as int) == digits_end(s@, p as int),
        decreases s.len() - i,
    {
        i = i + 1;
    }
    i
}

/// Whether `s` is a timestamp: an integer with an optional minus sign.
pub fn check_timestamp(s: &Vec<u8>) -> (r: bool)
    ensures
        r == is_timestamp(s@),
{
    if s.len() == 0 {
        return false;
    }
    let mut i: usize = 0;
    while i < s.len()
        invariant
            i <= s@.len(),
            s@.len() > 0,
            forall|j: int| 0 <= j < i ==> is_digit(#[trigger] s@[j]) || (j == 0 && s@[j] == 0x2d
                && s@.len() > 1),
        decreases s.len() - i,
    {
        let b = s[i];
        if !(0x30 <= b && b <= 0x39) && !(i == 0 && b == 0x2d && s.len() > 1) {
            assert(!(is_digit(s@[i as int]) || (i == 0 && s@[i as int] == 0x2d && s@.len() > 1)));
            return false;
        }
        i = i + 1;
    }
    true
}

/// From `start` on, the line holds the value `v` escaped, then the closing quote, which
/// ends at `k`.
pub open spec fn quoted_at(line: Seq<u8>, start: int, v: Seq<u8>, k: int) -> bool {
    start <= k <= line.len() && line.subrange(start, k) == escape(v) + seq![QUOTE]
}

/// From `start` on, the line holds the value `v` escaped, then a closing quote.
pub open spec fn quoted_value(line: Seq<u8>, start: int, v: Seq<u8>) -> bool {
    exists|k: int| #[trigger] quoted_at(line, start, v, k)
}

/// Somewhere from `start` on, the line holds an escaped value and a closing quote.
pub open spec fn has_quoted(line: Seq<u8>, start: int) -> bool {
    exists|v: Seq<u8>, k: int| #[trigger] quoted_at(line, start, v, k)
}

/// Reads a quoted label value whose opening quote stands just before `start`. Returns the
/// value and the position after the closing quote exactly when the line holds an escaped
/// value and a quote there.
pub fn read_label_value(line: &Vec<u8>, start: usize) -> (r: Option<(Vec<u8>, usize)>)
    requires
        start <= line@.len(),
    ensures
        r matches Some((v, end)) ==> start < end && quoted_at(line@, start as int, v@, end as int),
        forall|v: Seq<u8>, k: int| #[trigger]
            quoted_at(line@, start as int, v, k) ==> (r matches Some((w, end)) && w@ == v && end
                == k),
{
    let ghost vv = if has_quoted(line@, start as int) {
        choose|v: Seq<u8>| quoted_value(line@, start as int, v)
    } else {
        Seq::empty()
    };
    proof {
        if has_quoted(line@, start as int) {
            let (v0, k0) = choose|v: Seq<u8>, k: int| #[trigger] quoted_at(line@, start as int, v, k);
            assert(quoted_value(line@, start as int, v0));
        }
    }
    let ghost kk = if has_quoted(line@, start as int) {
        choose|k: int| quoted_at(line@, start as int, vv, k)
    } else {
        0
    };
    let mut v: Vec<u8> = Vec::new();
    let mut i: usize = start;
    assert(line@.subrange(start as int, start as int) =~= escape(v@));
    proof {
        if has_quoted(line@, start as int) {
            assert(vv.skip(0) =~= vv);
            assert(vv.take(0) =~= v@);
        }
    }
    while i < line.len()
        invariant
            start <= i <= line@.len(),
            line@.subrange(start as int, i as int) == escape(v@),
            has_quoted(line@, start as int) ==> quoted_at(line@, start as int, vv, kk),
            has_quoted(line@, start as int) ==> v@.len() <= vv.len() && v@ == vv.take(v@.len() as int) && i <= kk
                && line@.subrange(i as int, kk) == escape(vv.skip(v@.len() as int)) + seq![QUOTE],
        decreases line.len() - i,
    {
        let b = line[i];
        let ghost rest = vv.skip(v@.len() as int);
        proof {
            if has_quoted(line@, start as int) {
                assert(line@[i as int] == line@.subrange(i as int, kk)[0]);
                if rest.len() > 0 {
                    crate::labels::lemma_escape_front(rest);
                    assert(line@.subrange(i as int, kk) =~= escape_byte(rest[0]) + (escape(
                        rest.drop_first(),
                    ) + seq![QUOTE]));
                    assert(line@.subrange(i as int, kk).len() >= escape_byte(rest[0]).len() + 1);
                    assert(line@[i as int] == escape_byte(rest[0])[0]);
                    if escape_byte(rest[0]).len() == 2 {
                        assert(line@[i + 1] == line@.subrange(i as int, kk)[1]);
                        assert(line@[i + 1] == escape_byte(rest[0])[1]);
                        assert(i + 3 <= kk);
                    } else {
                        assert(escape_byte(rest[0]) == seq![rest[0]]);
                    }
                } else {
                    assert(rest =~= Seq::<u8>::empty());
                    assert(line@.subrange(i as int, kk) =~= seq![QUOTE]);
                }
            }
        }
        if b == QUOTE {
            assert(line@.subrange(start as int, i + 1) =~= escape(v@) + seq![QUOTE]);
            proof {
                let len = line@.len() as int;
                assert forall|w: Seq<u8>, k: int| #[trigger]
                    quoted_at(line@, start as int, w, k) implies v@ == w && i + 1 == k by {
                    let r1 = line@.subrange(i + 1, len);
                    let r2 = line@.subrange(k, len);
                    assert(line@.subrange(start as int, len) =~= escape(v@) + seq![QUOTE] + r1);
                    assert(line@.subrange(start as int, len) =~= escape(w) + seq![QUOTE] + r2);
                    crate::labels::lemma_escaped_value_reads_back(v@, w, r1, r2);
                    crate::labels::lemma_escape_concat(v@, Seq::empty());
                }
            }
            return Some((v, i + 1));
        }
        let ghost before = v@;
        if b == BACKSLASH {
            if i + 1 >= line.len() {
                assert(!has_quoted(line@, start as int));
                return None;
            }
            let c = line[i + 1];
            proof {
                if has_quoted(line@, start as int) {
                    assert(line@[i + 1] == line@.subrange(i as int, kk)[1]);
                }
            }
            let u: u8 = if c == BACKSLASH {
                BACKSLASH
            } else if c == QUOTE {
                QUOTE
            } else if c == 0x6e {
                NEWLINE
            } else {
                assert(!has_quoted(line@, start as int));
                return None;
            };
            v.push(u);
            assert(v@.drop_last() =~= before);
            assert(escape_byte(u) =~= seq![b, c]);
            assert(line@.subrange(start as int, i + 2) =~= line@.subrange(start as int, i as int)
                + seq![b, c]);
            proof {
                if has_quoted(line@, start as int) {
                    assert(u == rest[0]);
                    assert(v@ =~= vv.take(v@.len() as int));
                    assert(rest.drop_first() =~= vv.skip(v@.len() as int));
                    assert(line@.subrange(i + 2, kk) =~= line@.subrange(i as int, kk).skip(2));
                }
            }
            i = i + 2;
        } else {
            if b == NEWLINE {
                assert(!has_quoted(line@, start as int));
                return None;
            }
            v.push(b);
            assert(v@.drop_last() =~= before);
            assert(escape_byte(b) =~= seq![b]);
            assert(line@.subrange(start as int, i + 1) =~= line@.subrange(start as int, i as int)
                + seq![b]);
            proof {
                if has_quoted(line@, start as int) {
                    assert(b == rest[0]);
                    assert(v@ =~= vv.take(v@.len() as int));
                    assert(rest.drop_first() =~= vv.skip(v@.len() as int));
                    assert(line@.subrange(i + 1, kk) =~= line@.subrange(i as int, kk).skip(1));
                }
            }
            i = i + 1;
        }
    }
    proof {
        if has_quoted(line@, start as int) {
            assert(line@.subrange(i as int, kk).len() >= 1);
        }
    }
    None
}

pub const SPACE: u8 = 0x20;

/// No two families share a name, and no name is empty.
pub open spec fn names_distinct(fs: Seq<ParsedFamily>) -> bool {
    &&& forall|i: int, j: int|
        0 <= i < fs.len() && 0 <= j < fs.len() && i != j ==> #[trigger] fs[i].name@
            != #[trigger] fs[j].name@
    &&& forall|i: int| 0 <= i < fs.len() ==> #[trigger] fs[i].name@.len() > 0
}

/// Every family name is made of name bytes; every sample value is a number and every
/// timestamp, where there is one, an integer.
pub open spec fn samples_well_formed(fs: Seq<ParsedFamily>) -> bool {
    &&& forall|i: int, j: int|
        0 <= i < fs.len() && 0 <= j < fs[i].name@.len() ==> is_name_byte(#[trigger] fs[i].name@[j])
    &&& forall|i: int, j: int|
        0 <= i < fs.len() && 0 <= j < fs[i].samples@.len() ==> is_number(
            (#[trigger] fs[i].samples@[j]).value@,
        ) && (fs[i].samples@[j].timestamp@.len() == 0 || is_timestamp(
            fs[i].samples@[j].timestamp@,
        ))
}

/// A parse result fit to merge: names distinct, every sample's labels sorted.
pub open spec fn valid_push(fs: Seq<ParsedFamily>) -> bool {
    names_distinct(fs) && push_wf(fs)
}

/// The first position at or after `p` that does not hold a space.
pub open spec fn skip_sp(line: Seq<u8>, p: int) -> int
    decreases line.len() - p,
{
    if 0 <= p < line.len() && line[p] == SPACE {
        skip_sp(line, p + 1)
    } else {
        p
    }
}

/// The end of the run of name bytes that starts at `p`.
pub open spec fn name_end(line: Seq<u8>, p: int) -> int
    decreases line.len() - p,
{
    if 0 <= p < line.len() && is_name_byte(line[p]) {
        name_end(line, p + 1)
    } else {
        p
    }
}

/// The end of the word (a run of bytes other than space) that starts at `p`.
pub open spec fn word_end(line: Seq<u8>, p: int) -> int
    decreases line.len() - p,
{
    if 0 <= p < line.len() && line[p] != SPACE {
        word_end(line, p + 1)
    } else {
        p
    }
}

/// A byte of a label name: a name byte other than the colon.
pub open spec fn is_label_byte(b: u8) -> bool {
    is_name_byte(b) && b != 0x3a
}

/// The end of the run of label-name bytes that starts at `p`.
pub open spec fn label_name_end(line: Seq<u8>, p: int) -> int
    decreases line.len() - p,
{
    if 0 <= p < line.len() && is_label_byte(line[p]) {
        label_name_end(line, p + 1)
    } else {
        p
    }
}

/// The quoted value that starts at `start` (after its opening quote) and the position
/// after its closing quote, if the line holds one there.
pub open spec fn label_value_at(line: Seq<u8>, start: int) -> Option<(Seq<u8>, int)> {
    if has_quoted(line, start) {
        let v = choose|v: Seq<u8>| quoted_value(line, start, v);
        Some((v, choose|k: int| quoted_at(line, start, v, k)))
    } else {
        None
    }
}

/// The labels of a label block from position `i` on, laid over `acc`, and the position
/// after the closing `}`: items `name="value"` separated by commas, spaces allowed
/// around items, a comma allowed before the `}`; a later label of a name wins.
pub open spec fn labels_from(line: Seq<u8>, i: int, acc: Map<Seq<u8>, Seq<u8>>) -> Option<
    (Map<Seq<u8>, Seq<u8>>, int),
>
    decreases line.len() - i,
{
    if i < 0 || i >= line.len() {
        None
    } else {
        let a = skip_sp(line, i);
        if a < line.len() && line[a] == 0x7d {
            Some((acc, a + 1))
        } else {
            let p = label_name_end(line, a);
            if p == a || p + 2 > line.len() || line[p] != 0x3d || line[p + 1] != QUOTE {
                None
            } else {
                match label_value_at(line, p + 2) {
                    None => None,
                    Some((v, q)) => {
                        let j = skip_sp(line, q);
                        let acc2 = acc.insert(line.subrange(a, p), v);
                        if j < line.len() && line[j] == 0x2c && j + 1 > i {
                            labels_from(line, j + 1, acc2)
                        } else if j < line.len() && line[j] == 0x7d {
                            Some((acc2, j + 1))
                        } else {
                            None
                        }
                    },
                }
            }
        }
    }
}

/// What a metric line says.
pub struct MetricLineSpec {
    pub name: Seq<u8>,
    pub labels: Map<Seq<u8>, Seq<u8>>,
    pub value: Seq<u8>,
    pub timestamp: Seq<u8>,
}

/// A metric line `name{labels} value [timestamp]` (line `at` of the text): spaces may
/// lead, separate the value and timestamp, and trail; the label block is optional.
pub open spec fn metric_line_spec(line: Seq<u8>, at: usize) -> Result<MetricLineSpec, ParseError> {
    let s = skip_sp(line, 0);
    let p = name_end(line, s);
    let block = if p < line.len() && line[p] == 0x7b {
        labels_from(line, p + 1, Map::empty())
    } else {
        Some((Map::empty(), p))
    };
    if p == s {
        Err(ParseError::MalformedLine(at))
    } else if block is None {
        Err(ParseError::MalformedLine(at))
    } else {
        let labels = block.unwrap().0;
        let q = block.unwrap().1;
        let v = skip_sp(line, q);
        let e = word_end(line, v);
        let t = skip_sp(line, e);
        let f = word_end(line, t);
        let value = line.subrange(v, e);
        let ts = line.subrange(t, f);
        if q >= line.len() || line[q] != SPACE {
            Err(ParseError::MalformedLine(at))
        } else if !is_number(value) {
            Err(ParseError::InvalidValue(at))
        } else if ts.len() > 0 && !is_timestamp(ts) {
            Err(ParseError::InvalidTimestamp(at))
        } else if skip_sp(line, f) < line.len() {
            Err(ParseError::MalformedLine(at))
        } else {
            Ok(MetricLineSpec { name: line.subrange(s, p), labels, value, timestamp: ts })
        }
    }
}

/// What a line is: 0 blank, 1 a comment, 2 a metric line.
pub open spec fn line_class(line: Seq<u8>) -> int {
    let p = skip_sp(line, 0);
    if p >= line.len() {
        0
    } else if line[p] == 0x23 {
        1
    } else {
        2
    }
}

/// The metric name that a line starts with, after its leading spaces.
pub open spec fn line_name(line: Seq<u8>) -> Seq<u8> {
    let p = skip_sp(line, 0);
    line.subrange(p, name_end(line, p))
}

/// How many metric lines among `lines` name `name`.
pub open spec fn metric_lines_named(lines: Seq<Seq<u8>>, name: Seq<u8>) -> nat
    decreases lines.len(),
{
    if lines.len() == 0 {
        0
    } else {
        metric_lines_named(lines.drop_last(), name) + if line_class(lines.last()) == 2
            && line_name(lines.last()) == name {
            1nat
        } else {
            0nat
        }
    }
}

/// The type that a TYPE line's word names.
pub open spec fn kind_of_word(w: Seq<u8>) -> Option<MetricKind> {
    if w == kind_text(MetricKind::Counter) {
        Some(MetricKind::Counter)
    } else if w == kind_text(MetricKind::Gauge) {
        Some(MetricKind::Gauge)
    } else if w == kind_text(MetricKind::Histogram) {
        Some(MetricKind::Histogram)
    } else if w == kind_text(MetricKind::Summary) {
        Some(MetricKind::Summary)
    } else if w == kind_text(MetricKind::Untyped) {
        Some(MetricKind::Untyped)
    } else {
        None
    }
}

/// What a comment line asks for.
pub enum CommentAction {
    /// A comment other than HELP or TYPE.
    Nothing,
    /// `# HELP name text`: the family's help text.
    Help(Seq<u8>, Seq<u8>),
    /// `# TYPE name type`: the family's type.
    Type(Seq<u8>, MetricKind),
    /// A HELP or TYPE line without a name, or a TYPE line naming no known type.
    Fail(ParseError),
}

/// The comment on line `at`: `#`, then a word; HELP and TYPE take a metric name; HELP's
/// text is the rest of the line after the one space that ends the name; TYPE's type is the
/// next word.
pub open spec fn comment_action(line: Seq<u8>, at: usize) -> CommentAction {
    let start = skip_sp(line, 0);
    let w0 = skip_sp(line, start + 1);
    let w1 = word_end(line, w0);
    let word = line.subrange(w0, w1);
    let p = skip_sp(line, w1);
    let q = name_end(line, p);
    let r = skip_sp(line, q);
    let rest = line.subrange(r, word_end(line, r));
    if word != help_word() && word != type_word() {
        CommentAction::Nothing
    } else if q == p {
        CommentAction::Fail(ParseError::MalformedLine(at))
    } else if word == help_word() {
        CommentAction::Help(
            line.subrange(p, q),
            line.subrange(
                if q < line.len() {
                    q + 1
                } else {
                    q
                },
                line.len() as int,
            ),
        )
    } else {
        match kind_of_word(rest) {
            None => CommentAction::Fail(ParseError::UnknownType(at)),
            Some(k) => CommentAction::Type(line.subrange(p, q), k),
        }
    }
}

pub open spec fn help_word() -> Seq<u8> {
    seq![0x48u8, 0x45, 0x4c, 0x50]
}

pub open spec fn type_word() -> Seq<u8> {
    seq![0x54u8, 0x59, 0x50, 0x45]
}

/// The families read so far, in first-seen order, and for each whether a TYPE line has
/// declared it.
pub struct ParseState {
    pub fams: Seq<FamilySpec>,
    pub declared: Seq<bool>,
}

/// The index of the family named `name`, or -1.
pub open spec fn family_pos(fams: Seq<FamilySpec>, name: Seq<u8>) -> int
    decreases fams.len(),
{
    if fams.len() == 0 {
        -1
    } else if fams.last().name == name {
        fams.len() - 1
    } else {
        family_pos(fams.drop_last(), name)
    }
}

/// The state with the family `name` present: added at the end, untyped, with no help
/// and no samples, where it is new.
pub open spec fn with_family(st: ParseState, name: Seq<u8>) -> ParseState {
    if family_pos(st.fams, name) >= 0 {
        st
    } else {
        ParseState {
            fams: st.fams.push(
                FamilySpec {
                    name,
                    kind: MetricKind::Untyped,
                    help: Seq::empty(),
                    samples: Seq::empty(),
                },
            ),
            declared: st.declared.push(false),
        }
    }
}

pub open spec fn help_step(st: ParseState, name: Seq<u8>, help: Seq<u8>) -> ParseState {
    let s2 = with_family(st, name);
    let i = family_pos(s2.fams, name);
    let f = s2.fams[i];
    ParseState {
        fams: s2.fams.update(i, FamilySpec { name: f.name, kind: f.kind, help, samples: f.samples }),
        declared: s2.declared,
    }
}

/// A second TYPE line for a family must name the same type.
pub open spec fn type_step(st: ParseState, name: Seq<u8>, k: MetricKind, at: usize) -> Result<
    ParseState,
    ParseError,
> {
    let s2 = with_family(st, name);
    let i = family_pos(s2.fams, name);
    let f = s2.fams[i];
    if s2.declared[i] && f.kind != k {
        Err(ParseError::TypeRedeclared(at))
    } else {
        Ok(
            ParseState {
                fams: s2.fams.update(
                    i,
                    FamilySpec { name: f.name, kind: k, help: f.help, samples: f.samples },
                ),
                declared: s2.declared.update(i, true),
            },
        )
    }
}

pub open spec fn sample_step(st: ParseState, m: MetricLineSpec) -> ParseState {
    let s2 = with_family(st, m.name);
    let i = family_pos(s2.fams, m.name);
    let f = s2.fams[i];
    let smp = SampleSpec { labels: m.labels, value: m.value, timestamp: m.timestamp };
    ParseState {
        fams: s2.fams.update(
            i,
            FamilySpec { name: f.name, kind: f.kind, help: f.help, samples: f.samples.push(smp) },
        ),
        declared: s2.declared,
    }
}

/// The state after line `at`.
pub open spec fn apply_line(st: ParseState, line: Seq<u8>, at: usize) -> Result<ParseState, ParseError> {
    if line_class(line) == 0 {
        Ok(st)
    } else if line_class(line) == 1 {
        match comment_action(line, at) {
            CommentAction::Nothing => Ok(st),
            CommentAction::Fail(e) => Err(e),
            CommentAction::Help(n, h) => Ok(help_step(st, n, h)),
            CommentAction::Type(n, k) => type_step(st, n, k, at),
        }
    } else {
        match metric_line_spec(line, at) {
            Err(e) => Err(e),
            Ok(m) => Ok(sample_step(st, m)),
        }
    }
}

/// The state after the first `n` lines, or the first error.
pub open spec fn parse_lines(lines: Seq<Seq<u8>>, n: int) -> Result<ParseState, ParseError>
    decreases n,
{
    if n <= 0 {
        Ok(ParseState { fams: Seq::empty(), declared: Seq::empty() })
    } else {
        match parse_lines(lines, n - 1) {
            Err(e) => Err(e),
            Ok(st) => apply_line(st, lines[n - 1], (n - 1) as usize),
        }
    }
}

/// What a push body says: its families in first-seen order, or the error of its first
/// bad line.
pub open spec fn parse_spec(text: Seq<u8>) -> Result<Seq<FamilySpec>, ParseError> {
    let lines = split_on(text, NEWLINE);
    match parse_lines(lines, lines.len() as int) {
        Ok(st) => Ok(st.fams),
        Err(e) => Err(e),
    }
}

pub proof fn lemma_errors_stick(lines: Seq<Seq<u8>>, n: int, m: int, e: ParseError)
    requires
        n <= m,
        parse_lines(lines, n) == Err::<ParseState, ParseError>(e),
    ensures
        parse_lines(lines, m) == Err::<ParseState, ParseError>(e),
    decreases m - n,
{
    if n < m {
        lemma_errors_stick(lines, n, m - 1, e);
    }
}

pub proof fn lemma_family_pos(fams: Seq<FamilySpec>, name: Seq<u8>, i: int)
    requires
        distinct_names(fams),
        -1 <= i < fams.len(),
        i >= 0 ==> fams[i].name == name,
        i == -1 ==> forall|j: int| 0 <= j < fams.len() ==> #[trigger] fams[j].name != name,
    ensures
        family_pos(fams, name) == i,
    decreases fams.len(),
{
    if fams.len() > 0 && i != fams.len() - 1 {
        let d = fams.drop_last();
        if i >= 0 {
            assert(fams[fams.len() - 1].name != fams[i].name);
        } else {
            assert(fams[fams.len() - 1].name != name);
        }
        assert forall|a: int, b: int|
            0 <= a < d.len() && 0 <= b < d.len() && a != b implies #[trigger] d[a].name
            != #[trigger] d[b].name by {
            assert(d[a] == fams[a] && d[b] == fams[b]);
        }
        assert forall|j: int| 0 <= j < d.len() && i == -1 implies #[trigger] d[j].name != name by {
            assert(d[j] == fams[j]);
        }
        lemma_family_pos(d, name, i);
    }
}

pub proof fn lemma_family_pos_range(fams: Seq<FamilySpec>, name: Seq<u8>)
    ensures
        -1 <= family_pos(fams, name) < fams.len(),
        family_pos(fams, name) >= 0 ==> fams[family_pos(fams, name)].name == name,
        family_pos(fams, name) == -1 ==> forall|j: int|
            0 <= j < fams.len() ==> #[trigger] fams[j].name != name,
    decreases fams.len(),
{
    if fams.len() > 0 {
        let d = fams.drop_last();
        lemma_family_pos_range(d, name);
        assert forall|j: int| 0 <= j < d.len() implies #[trigger] d[j] == fams[j] by {}
        if family_pos(fams, name) == -1 {
            assert forall|j: int| 0 <= j < fams.len() implies #[trigger] fams[j].name != name by {
                if j < d.len() {
                    assert(d[j].name != name);
                }
            }
        }
    }
}

proof fn lemma_with_family(st: ParseState, name: Seq<u8>)
    requires
        distinct_names(st.fams),
        st.fams.len() == st.declared.len(),
    ensures
        ({
            let s2 = with_family(st, name);
            let i = family_pos(s2.fams, name);
            &&& distinct_names(s2.fams)
            &&& s2.fams.len() == s2.declared.len()
            &&& 0 <= i < s2.fams.len()
            &&& s2.fams[i].name == name
        }),
{
    lemma_family_pos_range(st.fams, name);
    let s2 = with_family(st, name);
    if family_pos(st.fams, name) < 0 {
        assert forall|a: int, b: int|
            0 <= a < s2.fams.len() && 0 <= b < s2.fams.len() && a != b implies #[trigger] s2.fams[a].name
            != #[trigger] s2.fams[b].name by {
            if a < st.fams.len() && b < st.fams.len() {
                assert(s2.fams[a] == st.fams[a] && s2.fams[b] == st.fams[b]);
            } else if a < st.fams.len() {
                assert(s2.fams[a] == st.fams[a]);
            } else {
                assert(s2.fams[b] == st.fams[b]);
            }
        }
    }
    lemma_family_pos_range(s2.fams, name);
}

proof fn lemma_update_keeps_names(fams: Seq<FamilySpec>, i: int, f: FamilySpec)
    requires
        distinct_names(fams),
        0 <= i < fams.len(),
        f.name == fams[i].name,
    ensures
        distinct_names(fams.update(i, f)),
{
    let u = fams.update(i, f);
    assert forall|a: int, b: int|
        0 <= a < u.len() && 0 <= b < u.len() && a != b implies #[trigger] u[a].name
        != #[trigger] u[b].name by {
        assert(u[a].name == fams[a].name && u[b].name == fams[b].name);
    }
}

proof fn lemma_parse_lines_distinct(lines: Seq<Seq<u8>>, n: int)
    ensures
        parse_lines(lines, n) matches Ok(st) ==> distinct_names(st.fams) && st.fams.len()
            == st.declared.len(),
    decreases n,
{
    if n > 0 {
        lemma_parse_lines_distinct(lines, n - 1);
        if let Ok(st) = parse_lines(lines, n - 1) {
            let line = lines[n - 1];
            let at = (n - 1) as usize;
            match comment_action(line, at) {
                CommentAction::Help(nm, h) => {
                    lemma_with_family(st, nm);
                    let s2 = with_family(st, nm);
                    let i = family_pos(s2.fams, nm);
                    let f = s2.fams[i];
                    lemma_update_keeps_names(s2.fams, i, FamilySpec { name: f.name, kind: f.kind, help: h, samples: f.samples });
                },
                CommentAction::Type(nm, k) => {
                    lemma_with_family(st, nm);
                    let s2 = with_family(st, nm);
                    let i = family_pos(s2.fams, nm);
                    let f = s2.fams[i];
                    lemma_update_keeps_names(s2.fams, i, FamilySpec { name: f.name, kind: k, help: f.help, samples: f.samples });
                },
                _ => {},
            }
            match metric_line_spec(line, at) {
                Ok(m) => {
                    lemma_with_family(st, m.name);
                    let s2 = with_family(st, m.name);
                    let i = family_pos(s2.fams, m.name);
                    let f = s2.fams[i];
                    let smp = SampleSpec { labels: m.labels, value: m.value, timestamp: m.timestamp };
                    lemma_update_keeps_names(s2.fams, i, FamilySpec { name: f.name, kind: f.kind, help: f.help, samples: f.samples.push(smp) });
                },
                _ => {},
            }
        }
    }
}

/// A parsed body never holds two families of one name.
pub proof fn lemma_parse_spec_distinct(text: Seq<u8>)
    ensures
        parse_spec(text) matches Ok(fs) ==> distinct_names(fs),
{
    let lines = split_on(text, NEWLINE);
    lemma_parse_lines_distinct(lines, lines.len() as int);
}

/// The state that the exec lists stand for.
pub open spec fn state_of(fams: Seq<ParsedFamily>, declared: Seq<bool>) -> ParseState {
    ParseState { fams: push_view(fams), declared }
}

/// The first position at or after `pos` that does not hold a space.
fn skip_spaces(line: &Vec<u8>, pos: usize) -> (r: usize)
    requires
        pos <= line@.len(),
    ensures
        pos <= r <= line@.len(),
        r < line@.len() ==> line@[r as int] != SPACE,
        r == skip_sp(line@, pos as int),
{
    let mut i = pos;
    while i < line.len() && line[i] == SPACE
        invariant
            pos <= i <= line@.len(),
            skip_sp(line@, i as int) == skip_sp(line@, pos as int),
        decreases line.len() - i,
    {
        i = i + 1;
    }
    i
}

/// The bytes from `pos` up to the next space or the end of the line.
fn read_word(line: &Vec<u8>, pos: usize) -> (r: (Vec<u8>, usize))
    requires
        pos <= line@.len(),
    ensures
        pos <= r.1 <= line@.len(),
        r.0@ == line@.subrange(pos as int, r.1 as int),
        r.1 == word_end(line@, pos as int),
{
    let mut w: Vec<u8> = Vec::new();
    let mut i = pos;
    while i < line.len() && line[i] != SPACE
        invariant
            pos <= i <= line@.len(),
            w@ == line@.subrange(pos as int, i as int),
            word_end(line@, i as int) == word_end(line@, pos as int),
        decreases line.len() - i,
    {
        w.push(line[i]);
        assert(w@ =~= line@.subrange(pos as int, i + 1));
        i = i + 1;
    }
    (w, i)
}

/// The name bytes from `pos` on; a label name takes no colon.
fn read_name(line: &Vec<u8>, pos: usize, label: bool) -> (r: (Vec<u8>, usize))
    requires
        pos <= line@.len(),
    ensures
        pos <= r.1 <= line@.len(),
        r.0@ == line@.subrange(pos as int, r.1 as int),
        forall|i: int| 0 <= i < r.0@.len() ==> is_name_byte(#[trigger] r.0@[i]),
        !label ==> r.1 == name_end(line@, pos as int),
        label ==> r.1 == label_name_end(line@, pos as int),
{
    let mut w: Vec<u8> = Vec::new();
    let mut i = pos;
    while i < line.len()
        invariant
            pos <= i <= line@.len(),
            w@ == line@.subrange(pos as int, i as int),
            forall|j: int| 0 <= j < w@.len() ==> is_name_byte(#[trigger] w@[j]),
            !label ==> name_end(line@, i as int) == name_end(line@, pos as int),
            label ==> label_name_end(line@, i as int) == label_name_end(line@, pos as int),
        ensures
            pos <= i <= line@.len(),
            w@ == line@.subrange(pos as int, i as int),
            forall|j: int| 0 <= j < w@.len() ==> is_name_byte(#[trigger] w@[j]),
            !label ==> i == name_end(line@, pos as int),
            label ==> i == label_name_end(line@, pos as int),
        decreases line.len() - i,
    {
        let b = line[i];
        let ok = (0x30 <= b && b <= 0x39) || (0x41 <= b && b <= 0x5a) || (0x61 <= b && b <= 0x7a)
            || b == 0x5f || (b == 0x3a && !label);
        if !ok {
            break;
        }
        w.push(b);
        assert(w@ =~= line@.subrange(pos as int, i + 1));
        i = i + 1;
    }
    (w, i)
}

/// Reads a label block whose `{` stands just before `pos`; returns the labels, sorted
/// by name (a later label of the same name wins), and the position after the `}`.
fn read_labels(line: &Vec<u8>, pos: usize) -> (r: Option<(LabelList, usize)>)
    requires
        pos <= line@.len(),
    ensures
        r matches Some((l, end)) ==> is_sorted(l@) && pos < end <= line@.len(),
        match labels_from(line@, pos as int, Map::empty()) {
            None => r is None,
            Some((m, e)) => r matches Some((l, end)) && label_map(l@) == m && end == e,
        },
{
    let mut out: LabelList = Vec::new();
    let mut i = pos;
    assert(label_map(out@) =~= Map::<Seq<u8>, Seq<u8>>::empty());
    while i < line.len()
        invariant
            pos <= i <= line@.len(),
            is_sorted(out@),
            labels_from(line@, i as int, label_map(out@)) == labels_from(
                line@,
                pos as int,
                Map::empty(),
            ),
        decreases line.len() - i,
    {
        let ghost i0 = i as int;
        i = skip_spaces(line, i);
        if i < line.len() && line[i] == 0x7d {
            return Some((out, i + 1));
        }
        let (name, p) = read_name(line, i, true);
        if name.len() == 0 || line.len() - p < 2 || line[p] != 0x3d || line[p + 1] != QUOTE {
            return None;
        }
        let rv = read_label_value(line, p + 2);
        proof {
            let lv = line@;
            let st: int = p + 2;
            if has_quoted(lv, st) {
                let vv = choose|v: Seq<u8>| quoted_value(lv, st, v);
                let kk = choose|k: int| quoted_at(lv, st, vv, k);
                let (v0, k0) = choose|v: Seq<u8>, k: int| #[trigger] quoted_at(lv, st, v, k);
                assert(quoted_value(lv, st, v0));
                assert(quoted_at(lv, st, vv, kk));
            } else if rv is Some {
                let (w, e) = rv.unwrap();
                assert(quoted_at(lv, st, w@, e as int));
            }
        }
        match rv {
            None => {
                return None;
            },
            Some((value, q)) => {
                let ghost before = out@;
                let ghost nv = name@;
                let ghost vv = value@;
                upsert(&mut out, name, value);
                proof {
                    crate::labels::lemma_label_map_upsert(before, out@, nv, value);
                }
                let j = skip_spaces(line, q);
                if j < line.len() && line[j] == 0x2c {
                    i = j + 1;
                } else if j < line.len() && line[j] == 0x7d {
                    return Some((out, j + 1));
                } else {
                    return None;
                }
            },
        }
    }
    None
}

/// The parts of a metric line: name, labels, value and timestamp (empty when absent).
pub struct MetricLine {
    pub name: Vec<u8>,
    pub labels: LabelList,
    pub value: Vec<u8>,
    pub timestamp: Vec<u8>,
}

/// Reads `name{labels} value [timestamp]`; `at` is the line's index, for the error.
pub fn read_metric_line(line: &Vec<u8>, at: usize) -> (r: Result<MetricLine, ParseError>)
    ensures
        r matches Ok(m) ==> m.name@.len() > 0 && is_sorted(m.labels@) && is_number(m.value@) && (
        m.timestamp@.len() == 0 || is_timestamp(m.timestamp@)) && (forall|j: int|
            0 <= j < m.name@.len() ==> is_name_byte(#[trigger] m.name@[j])) && m.name@ == line_name(
            line@,
        ),
        r matches Err(e) ==> e == ParseError::MalformedLine(at) || e == ParseError::InvalidValue(
            at,
        ) || e == ParseError::InvalidTimestamp(at),
        match metric_line_spec(line@, at) {
            Ok(ms) => r matches Ok(m) && m.name@ == ms.name && label_map(m.labels@) == ms.labels
                && m.value@ == ms.value && m.timestamp@ == ms.timestamp,
            Err(e) => r == Err::<MetricLine, ParseError>(e),
        },
{
    let start = skip_spaces(line, 0);
    let (name, p) = read_name(line, start, false);
    if name.len() == 0 {
        return Err(ParseError::MalformedLine(at));
    }
    let (labels, q) = if p < line.len() && line[p] == 0x7b {
        match read_labels(line, p + 1) {
            Some(x) => x,
            None => {
                return Err(ParseError::MalformedLine(at));
            },
        }
    } else {
        (Vec::new(), p)
    };
    if q >= line.len() || line[q] != SPACE {
        return Err(ParseError::MalformedLine(at));
    }
    let v = skip_spaces(line, q);
    let (value, e) = read_word(line, v);
    if !check_number(&value) {
        return Err(ParseError::InvalidValue(at));
    }
    let t = skip_spaces(line, e);
    let (timestamp, f) = read_word(line, t);
    if timestamp.len() > 0 && !check_timestamp(&timestamp) {
        return Err(ParseError::InvalidTimestamp(at));
    }
    let g = skip_spaces(line, f);
    if g < line.len() {
        return Err(ParseError::MalformedLine(at));
    }
    Ok(MetricLine { name, labels, value, timestamp })
}

/// The type that a TYPE line names.
pub fn kind_from_word(w: &Vec<u8>) -> (r: Option<MetricKind>)
    ensures
        r == Some(MetricKind::Counter) <==> w@ == crate::store::kind_text(MetricKind::Counter),
        r == Some(MetricKind::Gauge) <==> w@ == crate::store::kind_text(MetricKind::Gauge),
        r == Some(MetricKind::Histogram) <==> w@ == crate::store::kind_text(MetricKind::Histogram),
        r == Some(MetricKind::Summary) <==> w@ == crate::store::kind_text(MetricKind::Summary),
        r == Some(MetricKind::Untyped) <==> w@ == crate::store::kind_text(MetricKind::Untyped),
        r == kind_of_word(w@),
{
    let c = vec![0x63u8, 0x6f, 0x75, 0x6e, 0x74, 0x65, 0x72];
    let g = vec![0x67u8, 0x61, 0x75, 0x67, 0x65];
    let h = vec![0x68u8, 0x69, 0x73, 0x74, 0x6f, 0x67, 0x72, 0x61, 0x6d];
    let s = vec![0x73u8, 0x75, 0x6d, 0x6d, 0x61, 0x72, 0x79];
    let u = vec![0x75u8, 0x6e, 0x74, 0x79, 0x70, 0x65, 0x64];
    assert(c@ =~= crate::store::kind_text(MetricKind::Counter));
    assert(g@ =~= crate::store::kind_text(MetricKind::Gauge));
    assert(h@ =~= crate::store::kind_text(MetricKind::Histogram));
    assert(s@ =~= crate::store::kind_text(MetricKind::Summary));
    assert(u@ =~= crate::store::kind_text(MetricKind::Untyped));
    if compare_equal(w, &c) {
        Some(MetricKind::Counter)
    } else if compare_equal(w, &g) {
        Some(MetricKind::Gauge)
    } else if compare_equal(w, &h) {
        Some(MetricKind::Histogram)
    } else if compare_equal(w, &s) {
        Some(MetricKind::Summary)
    } else if compare_equal(w, &u) {
        Some(MetricKind::Untyped)
    } else {
        None
    }
}

/// The index of the family named `name`, added (untyped, no help, no samples) where
/// it is not there yet.
fn family_index(fams: &mut Vec<ParsedFamily>, declared: &mut Vec<bool>, name: &Vec<u8>) -> (r: usize)
    requires
        valid_push(old(fams)@),
        samples_well_formed(old(fams)@),
        old(fams)@.len() == old(declared)@.len(),
        name@.len() > 0,
        forall|j: int| 0 <= j < name@.len() ==> is_name_byte(#[trigger] name@[j]),
    ensures
        valid_push(final(fams)@),
        samples_well_formed(final(fams)@),
        final(fams)@.len() == final(declared)@.len(),
        r < final(fams)@.len(),
        final(fams)@[r as int].name@ == name@,
        final(fams)@.len() == old(fams)@.len() ==> final(fams)@ == old(fams)@,
        final(fams)@.len() != old(fams)@.len() ==> final(fams)@.len() == old(fams)@.len() + 1
            && r == old(fams)@.len() && final(fams)@[r as int].samples@.len() == 0 && final(fams)@.take(
            r as int,
        ) == old(fams)@ && (forall|j: int| 0 <= j < old(fams)@.len() ==> #[trigger] old(fams)@[j].name@ != name@),
        state_of(final(fams)@, final(declared)@) == with_family(state_of(old(fams)@, old(declared)@), name@),
        r as int == family_pos(push_view(final(fams)@), name@),
{
    proof {
        let pv = push_view(fams@);
        assert forall|a: int, b: int|
            0 <= a < pv.len() && 0 <= b < pv.len() && a != b implies #[trigger] pv[a].name
            != #[trigger] pv[b].name by {
            assert(fams@[a].name@ != fams@[b].name@);
        }
    }
    let mut i: usize = 0;
    while i < fams.len()
        invariant
            i <= fams@.len(),
            valid_push(fams@),
            samples_well_formed(fams@),
            fams@.len() == declared@.len(),
            fams@ == old(fams)@,
            forall|j: int| 0 <= j < i ==> #[trigger] fams@[j].name@ != name@,
        decreases fams.len() - i,
    {
        if compare_equal(&fams[i].name, name) {
            proof {
                lemma_family_pos(push_view(fams@), name@, i as int);
            }
            return i;
        }
        i = i + 1;
    }
    proof {
        let pv = push_view(fams@);
        assert forall|j: int| 0 <= j < pv.len() implies #[trigger] pv[j].name != name@ by {
            assert(fams@[j].name@ != name@);
        }
        lemma_family_pos(pv, name@, -1);
    }
    let f = ParsedFamily {
        name: copy_bytes(name),
        kind: MetricKind::Untyped,
        help: Vec::new(),
        samples: Vec::new(),
    };
    let ghost fv = f@;
    fams.push(f);
    declared.push(false);
    proof {
        let s = fams@;
        assert(s.take(i as int) =~= old(fams)@);
        assert(fv.samples =~= Seq::<SampleSpec>::empty());
        assert(fv.help =~= Seq::<u8>::empty());
        assert(push_view(s) =~= push_view(old(fams)@).push(fv));
        let pv = push_view(s);
        assert forall|a: int, b: int|
            0 <= a < pv.len() && 0 <= b < pv.len() && a != b implies #[trigger] pv[a].name
            != #[trigger] pv[b].name by {
            if a < s.len() - 1 && b < s.len() - 1 {
                assert(old(fams)@[a] == s[a] && old(fams)@[b] == s[b]);
            }
        }
        lemma_family_pos(pv, name@, i as int);
        assert forall|a: int, b: int|
            0 <= a < s.len() && 0 <= b < s.len() && a != b implies #[trigger] s[a].name@
            != #[trigger] s[b].name@ by {
            if a < s.len() - 1 && b < s.len() - 1 {
                assert(old(fams)@[a] == s[a] && old(fams)@[b] == s[b]);
            }
        }
        assert forall|a: int, b: int|
            0 <= a < s.len() && 0 <= b < s[a].samples@.len() implies is_sorted(
            #[trigger] s[a].samples@[b].labels@,
        ) by {
            if a < s.len() - 1 {
                assert(old(fams)@[a] == s[a]);
            }
        }
        assert forall|a: int, b: int|
            0 <= a < s.len() && 0 <= b < s[a].name@.len() implies is_name_byte(
            #[trigger] s[a].name@[b],
        ) by {
            if a < s.len() - 1 {
                assert(old(fams)@[a] == s[a]);
            }
        }
        assert forall|a: int, b: int| 0 <= a < s.len() && 0 <= b < s[a].samples@.len() implies is_number(
            (#[trigger] s[a].samples@[b]).value@,
        ) && (s[a].samples@[b].timestamp@.len() == 0 || is_timestamp(s[a].samples@[b].timestamp@)) by {
            if a < s.len() - 1 {
                assert(old(fams)@[a] == s[a]);
            }
        }
    }
    i
}

/// `new` is `old` with possibly some families added, each with no samples and a name
/// that `old` lacks; the families of `old` keep their names and sample counts.
pub open spec fn adds_empty_families(old: Seq<ParsedFamily>, new: Seq<ParsedFamily>) -> bool {
    &&& new.len() >= old.len()
    &&& forall|j: int|
        0 <= j < old.len() ==> (#[trigger] new[j]).name@ == old[j].name@ && new[j].samples@.len()
            == old[j].samples@.len()
    &&& forall|j: int| old.len() <= j < new.len() ==> (#[trigger] new[j]).samples@.len() == 0
    &&& forall|j: int, k: int|
        old.len() <= j < new.len() && 0 <= k < old.len() ==> (#[trigger] new[j]).name@
            != (#[trigger] old[k]).name@
}

/// `new` is `old` with one sample added to the family `name`, which is added first where
/// `old` lacks it.
pub open spec fn adds_one_sample(old: Seq<ParsedFamily>, new: Seq<ParsedFamily>, name: Seq<u8>) -> bool {
    &&& new.len() >= old.len()
    &&& exists|k: int| 0 <= k < new.len() && (#[trigger] new[k]).name@ == name
    &&& forall|j: int| 0 <= j < old.len() ==> (#[trigger] new[j]).name@ == old[j].name@
    &&& forall|j: int|
        0 <= j < new.len() ==> (#[trigger] new[j]).samples@.len() == (if j < old.len() {
            old[j].samples@.len()
        } else {
            0
        }) + (if new[j].name@ == name {
            1nat
        } else {
            0nat
        })
    &&& forall|j: int, k: int|
        old.len() <= j < new.len() && 0 <= k < old.len() ==> (#[trigger] new[j]).name@
            != (#[trigger] old[k]).name@
}

/// Adds the sample of a metric line to the family it names.
fn add_metric_line(fams: &mut Vec<ParsedFamily>, declared: &mut Vec<bool>, m: MetricLine)
    requires
        valid_push(old(fams)@),
        samples_well_formed(old(fams)@),
        old(fams)@.len() == old(declared)@.len(),
        m.name@.len() > 0,
        is_sorted(m.labels@),
        is_number(m.value@),
        m.timestamp@.len() == 0 || is_timestamp(m.timestamp@),
        forall|j: int| 0 <= j < m.name@.len() ==> is_name_byte(#[trigger] m.name@[j]),
    ensures
        valid_push(final(fams)@),
        samples_well_formed(final(fams)@),
        final(fams)@.len() == final(declared)@.len(),
        adds_one_sample(old(fams)@, final(fams)@, m.name@),
        state_of(final(fams)@, final(declared)@) == sample_step(
            state_of(old(fams)@, old(declared)@),
            MetricLineSpec {
                name: m.name@,
                labels: label_map(m.labels@),
                value: m.value@,
                timestamp: m.timestamp@,
            },
        ),
{
    let ghost name = m.name@;
    let i = family_index(fams, declared, &m.name);
    let ghost before = fams@;
    let ghost fold = fams@[i as int];
    let mut f = fams.remove(i);
    let sample = ParsedSample { labels: m.labels, value: m.value, timestamp: m.timestamp };
    let ghost smp = sample@;
    f.samples.push(sample);
    fams.insert(i, f);
    proof {
        let o = old(fams)@;
        assert(f@.samples =~= fold@.samples.push(smp));
        assert(push_view(fams@) =~= push_view(before).update(i as int, f@));
        assert(fams@ =~= before.update(i as int, f));
        assert forall|a: int| 0 <= a < fams@.len() && a != i implies #[trigger] fams@[a] == before[a] by {}
        assert forall|a: int, b: int|
            0 <= a < fams@.len() && 0 <= b < fams@[a].samples@.len() implies is_sorted(
            #[trigger] fams@[a].samples@[b].labels@,
        ) by {
            if a == i && b < before[a].samples@.len() {
                assert(fams@[a].samples@[b] == before[a].samples@[b]);
            }
        }
        assert forall|a: int, b: int|
            0 <= a < fams@.len() && 0 <= b < fams@[a].name@.len() implies is_name_byte(
            #[trigger] fams@[a].name@[b],
        ) by {}
        assert forall|a: int, b: int|
            0 <= a < fams@.len() && 0 <= b < fams@[a].samples@.len() implies is_number(
            (#[trigger] fams@[a].samples@[b]).value@,
        ) && (fams@[a].samples@[b].timestamp@.len() == 0 || is_timestamp(
            fams@[a].samples@[b].timestamp@,
        )) by {
            if a == i && b < before[a].samples@.len() {
                assert(fams@[a].samples@[b] == before[a].samples@[b]);
            }
        }
        assert(fams@[i as int].name@ == name);
        assert forall|j: int| 0 <= j < o.len() implies (#[trigger] fams@[j]).name@ == o[j].name@ by {
            if before.len() != o.len() {
                assert(before.take(o.len() as int)[j] == o[j]);
            }
        }
        assert forall|j: int| 0 <= j < fams@.len() implies (#[trigger] fams@[j]).samples@.len() == (
        if j < o.len() {
            o[j].samples@.len()
        } else {
            0
        }) + (if fams@[j].name@ == name {
            1nat
        } else {
            0nat
        }) by {
            if before.len() != o.len() && j < o.len() {
                assert(before.take(o.len() as int)[j] == o[j]);
            }
            if j != i {
                assert(fams@[j].name@ != name);
            }
        }
    }
}

/// Applies a HELP or TYPE comment; other comments change nothing.
fn apply_comment_line(
    fams: &mut Vec<ParsedFamily>,
    declared: &mut Vec<bool>,
    line: &Vec<u8>,
    start: usize,
    n: usize,
) -> (r: Result<(), ParseError>)
    requires
        valid_push(old(fams)@),
        samples_well_formed(old(fams)@),
        old(fams)@.len() == old(declared)@.len(),
        start < line@.len(),
        start == skip_sp(line@, 0),
    ensures
        valid_push(final(fams)@),
        samples_well_formed(final(fams)@),
        final(fams)@.len() == final(declared)@.len(),
        r is Ok ==> adds_empty_families(old(fams)@, final(fams)@),
        r matches Err(e) ==> e == ParseError::MalformedLine(n) || e == ParseError::UnknownType(n)
            || e == ParseError::TypeRedeclared(n),
        ({
            let st = state_of(old(fams)@, old(declared)@);
            let now = state_of(final(fams)@, final(declared)@);
            match comment_action(line@, n) {
                CommentAction::Nothing => r is Ok && now == st,
                CommentAction::Fail(e) => r == Err::<(), ParseError>(e),
                CommentAction::Help(nm, h) => r is Ok && now == help_step(st, nm, h),
                CommentAction::Type(nm, k) => match type_step(st, nm, k, n) {
                    Ok(st2) => r is Ok && now == st2,
                    Err(e) => r == Err::<(), ParseError>(e),
                },
            }
        }),
{
    let help_word = vec![0x48u8, 0x45, 0x4c, 0x50];
    let type_word = vec![0x54u8, 0x59, 0x50, 0x45];
    assert(help_word@ =~= crate::exposition::help_word());
    assert(type_word@ =~= crate::exposition::type_word());
    let len = line.len();
    assert(start < len);
    let w0 = skip_spaces(line, start + 1);
    let (word, w1) = read_word(line, w0);
    let is_help = compare_equal(&word, &help_word);
    let is_type = compare_equal(&word, &type_word);
    if !is_help && !is_type {
        return Ok(());
    }
    let p = skip_spaces(line, w1);
    let (name, q) = read_name(line, p, false);
    if name.len() == 0 {
        return Err(ParseError::MalformedLine(n));
    }
    let r = skip_spaces(line, q);
    let (rest, _) = read_word(line, r);
    let kind = if is_help {
        None
    } else {
        match kind_from_word(&rest) {
            None => {
                return Err(ParseError::UnknownType(n));
            },
            Some(k) => Some(k),
        }
    };
    let i = family_index(fams, declared, &name);
    let ghost before = fams@;
    let ghost fold = fams@[i as int];
    let mut f = fams.remove(i);
    match kind {
        None => {
            let mut help: Vec<u8> = Vec::new();
            let k0 = if q < line.len() { q + 1 } else { q };
            let mut k = k0;
            while k < line.len()
                invariant
                    k0 <= k <= line@.len(),
                    help@ == line@.subrange(k0 as int, k as int),
                decreases line.len() - k,
            {
                help.push(line[k]);
                assert(help@ =~= line@.subrange(k0 as int, k + 1));
                k = k + 1;
            }
            f.help = help;
        },
        Some(k) => {
            if declared[i] && f.kind != k {
                fams.insert(i, f);
                proof {
                    assert(fams@ =~= before);
                }
                return Err(ParseError::TypeRedeclared(n));
            }
            f.kind = k;
            declared.set(i, true);
        },
    }
    fams.insert(i, f);
    proof {
        let o = old(fams)@;
        assert(fams@ =~= before.update(i as int, f));
        assert(push_view(fams@) =~= push_view(before).update(i as int, f@));
        assert forall|a: int| 0 <= a < fams@.len() && a != i implies #[trigger] fams@[a] == before[a] by {}
        assert(fams@[i as int].samples@ == before[i as int].samples@);
        assert(fams@[i as int].name@ == before[i as int].name@);
        assert forall|j: int| 0 <= j < o.len() implies (#[trigger] fams@[j]).name@ == o[j].name@
            && fams@[j].samples@.len() == o[j].samples@.len() by {
            if before.len() != o.len() {
                assert(before.take(o.len() as int)[j] == o[j]);
            }
        }
    }
    Ok(())
}

/// The line that an error names, and what kind of line it must be: a bad value or
/// timestamp stands on a metric line, a bad TYPE line is a comment, and a malformed line
/// is not blank.
pub open spec fn error_fits(e: ParseError, lines: Seq<Seq<u8>>) -> bool {
    match e {
        ParseError::MalformedLine(n) => n < lines.len() && line_class(lines[n as int]) != 0,
        ParseError::InvalidValue(n) => n < lines.len() && line_class(lines[n as int]) == 2,
        ParseError::InvalidTimestamp(n) => n < lines.len() && line_class(lines[n as int]) == 2,
        ParseError::UnknownType(n) => n < lines.len() && line_class(lines[n as int]) == 1,
        ParseError::TypeRedeclared(n) => n < lines.len() && line_class(lines[n as int]) == 1,
    }
}

/// Parses a push body.
pub fn parse(text: &Vec<u8>) -> (r: Result<Vec<ParsedFamily>, ParseError>)
    ensures
        r matches Ok(fs) ==> valid_push(fs@) && samples_well_formed(fs@),
        r matches Ok(fs) ==> (forall|i: int|
            0 <= i < fs@.len() ==> (#[trigger] fs@[i]).samples@.len() == metric_lines_named(
                split_on(text@, NEWLINE),
                fs@[i].name@,
            )),
        r matches Ok(fs) ==> (forall|name: Seq<u8>|
            #[trigger] metric_lines_named(split_on(text@, NEWLINE), name) > 0 ==> exists|i: int|
                0 <= i < fs@.len() && fs@[i].name@ == name),
        r matches Err(e) ==> error_fits(e, split_on(text@, NEWLINE)),
        r matches Ok(fs) ==> parse_spec(text@) == Ok::<Seq<FamilySpec>, ParseError>(push_view(fs@)),
        r matches Err(e) ==> parse_spec(text@) == Err::<Seq<FamilySpec>, ParseError>(e),
        (forall|i: int|
            0 <= i < split_on(text@, NEWLINE).len() ==> line_class(
                #[trigger] split_on(text@, NEWLINE)[i],
            ) == 0) ==> (r matches Ok(fs) && fs@.len() == 0),
{
    let lines = split_bytes(text, NEWLINE);
    let ghost sv = views_of(lines@);
    let mut fams: Vec<ParsedFamily> = Vec::new();
    let mut declared: Vec<bool> = Vec::new();
    let mut n: usize = 0;
    assert(push_view(fams@) =~= Seq::<FamilySpec>::empty());
    assert(declared@ =~= Seq::<bool>::empty());
    while n < lines.len()
        invariant
            valid_push(fams@),
            samples_well_formed(fams@),
            fams@.len() == declared@.len(),
            n <= lines@.len(),
            sv == views_of(lines@),
            sv == split_on(text@, NEWLINE),
            forall|i: int|
                0 <= i < fams@.len() ==> (#[trigger] fams@[i]).samples@.len() == metric_lines_named(
                    sv.take(n as int),
                    fams@[i].name@,
                ),
            forall|name: Seq<u8>|
                #[trigger] metric_lines_named(sv.take(n as int), name) > 0 ==> exists|i: int|
                    0 <= i < fams@.len() && fams@[i].name@ == name,
            (forall|i: int| 0 <= i < sv.len() ==> line_class(#[trigger] sv[i]) == 0) ==> fams@.len()
                == 0,
            parse_lines(sv, n as int) == Ok::<ParseState, ParseError>(state_of(fams@, declared@)),
        decreases lines.len() - n,
    {
        let line = &lines[n];
        let ghost lv = line@;
        let ghost t0 = sv.take(n as int);
        let ghost t = sv.take(n + 1);
        proof {
            assert(sv[n as int] == lv);
            assert(t.drop_last() =~= t0);
            assert(t.last() == lv);
        }
        let ghost fams0 = fams@;
        let start = skip_spaces(line, 0);
        if start >= line.len() {
            proof {
                assert forall|nm: Seq<u8>| #[trigger] metric_lines_named(t, nm) == metric_lines_named(t0, nm) by {}
            }
        } else if line[start] == 0x23 {
            proof {
                assert(line_class(lv) == 1);
            }
            match apply_comment_line(&mut fams, &mut declared, line, start, n) {
                Ok(()) => {},
                Err(e) => {
                    proof {
                        assert(parse_lines(sv, n + 1) == Err::<ParseState, ParseError>(e));
                        lemma_errors_stick(sv, n + 1, sv.len() as int, e);
                        assert(error_fits(e, sv));
                    }
                    return Err(e);
                },
            }
            proof {
                assert forall|nm: Seq<u8>| #[trigger] metric_lines_named(t, nm) == metric_lines_named(t0, nm) by {}
                assert forall|i: int| 0 <= i < fams@.len() implies (#[trigger] fams@[i]).samples@.len()
                    == metric_lines_named(t, fams@[i].name@) by {
                    if i >= fams0.len() {
                        if metric_lines_named(t0, fams@[i].name@) > 0 {
                            let k = choose|k: int| 0 <= k < fams0.len() && fams0[k].name@ == fams@[i].name@;
                            assert(fams@[i].name@ != fams0[k].name@);
                        }
                    }
                }
                assert forall|nm: Seq<u8>| #[trigger] metric_lines_named(t, nm) > 0 implies exists|i: int|
                    0 <= i < fams@.len() && fams@[i].name@ == nm by {
                    let k = choose|k: int| 0 <= k < fams0.len() && fams0[k].name@ == nm;
                    assert(fams@[k].name@ == nm);
                }
            }
        } else {
            proof {
                assert(line_class(lv) == 2);
            }
            let m = match read_metric_line(line, n) {
                Ok(m) => m,
                Err(e) => {
                    proof {
                        assert(parse_lines(sv, n + 1) == Err::<ParseState, ParseError>(e));
                        lemma_errors_stick(sv, n + 1, sv.len() as int, e);
                    }
                    return Err(e);
                },
            };
            let ghost mname = m.name@;
            add_metric_line(&mut fams, &mut declared, m);
            proof {
                assert(line_class(lv) == 2);
                assert forall|nm: Seq<u8>| #[trigger] metric_lines_named(t, nm) == metric_lines_named(t0, nm) + if nm == mname {
                    1nat
                } else {
                    0nat
                } by {}
                assert forall|i: int| 0 <= i < fams@.len() implies (#[trigger] fams@[i]).samples@.len()
                    == metric_lines_named(t, fams@[i].name@) by {
                    if i >= fams0.len() {
                        if metric_lines_named(t0, fams@[i].name@) > 0 {
                            let k = choose|k: int| 0 <= k < fams0.len() && fams0[k].name@ == fams@[i].name@;
                            assert(fams@[i].name@ != fams0[k].name@);
                        }
                    }
                }
                assert forall|nm: Seq<u8>| #[trigger] metric_lines_named(t, nm) > 0 implies exists|i: int|
                    0 <= i < fams@.len() && fams@[i].name@ == nm by {
                    if metric_lines_named(t0, nm) > 0 {
                        let k = choose|k: int| 0 <= k < fams0.len() && fams0[k].name@ == nm;
                        assert(fams@[k].name@ == nm);
                    }
                }
            }
        }
        n = n + 1;
    }
    assert(sv.take(n as int) =~= sv);
    Ok(fams)
}

} // verus!
