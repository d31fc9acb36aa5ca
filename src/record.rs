//! The line grammar of the rasterizer's bounding-box diagnostics.
//!
//! A record line is a marker (`%%BoundingBox:` or `%%HiResBoundingBox:`),
//! any run of ASCII whitespace, then four decimal numbers separated by single
//! spaces, and nothing but ASCII whitespace after the fourth number.
use vstd::prelude::*;

verus! {

/// Which of the two precision tiers a record line belongs to.
#[derive(Clone, Copy, Debug, PartialEq, Eq, Structural)]
pub enum Tier {
    /// `%%BoundingBox:`, integer-rounded.
    Standard,
    /// `%%HiResBoundingBox:`, with fractional digits.
    HighPrecision,
}

/// A rectangle as the rasterizer wrote it: each coordinate is kept as the
/// decimal text of the line, so no precision is lost before the document
/// receives it.
#[derive(Clone, Debug, PartialEq, Eq)]
pub struct BoundingBox {
    pub x_min: Vec<u8>,
    pub y_min: Vec<u8>,
    pub x_max: Vec<u8>,
    pub y_max: Vec<u8>,
}

impl View for BoundingBox {
    type V = Seq<Seq<u8>>;

    /// The four coordinates in the order `x_min, y_min, x_max, y_max`.
    open spec fn view(&self) -> Seq<Seq<u8>> {
        seq![self.x_min@, self.y_min@, self.x_max@, self.y_max@]
    }
}

pub open spec fn is_space(c: u8) -> bool {
    c == 9 || c == 10 || c == 11 || c == 12 || c == 13 || c == 32
}

pub open spec fn is_digit(c: u8) -> bool {
    48 <= c <= 57
}

/// Bytes that may occur in a number field: digits, `.` and `-`.
pub open spec fn is_field_byte(c: u8) -> bool {
    is_digit(c) || c == 46 || c == 45
}

pub open spec fn all_spaces(s: Seq<u8>) -> bool {
    forall|i: int| 0 <= i < s.len() ==> is_space(#[trigger] s[i])
}

/// Digits with at most one `.` among them, and at least one digit.
pub open spec fn is_unsigned_decimal(s: Seq<u8>) -> bool {
    &&& forall|i: int| 0 <= i < s.len() ==> is_digit(#[trigger] s[i]) || s[i] == 46
    &&& exists|i: int| 0 <= i < s.len() && is_digit(#[trigger] s[i])
    &&& forall|i: int, j: int|
        #![trigger s[i], s[j]]
        0 <= i < s.len() && 0 <= j < s.len() && s[i] == 46 && s[j] == 46 ==> i == j
}

/// An optional `-` followed by an unsigned decimal (`12`, `-0.5`, `.5`, `3.`).
pub open spec fn is_decimal(s: Seq<u8>) -> bool {
    if s.len() > 0 && s[0] == 45 {
        is_unsigned_decimal(s.subrange(1, s.len() as int))
    } else {
        is_unsigned_decimal(s)
    }
}

/// `%%BoundingBox:` or `%%HiResBoundingBox:`.
pub open spec fn marker(t: Tier) -> Seq<u8> {
    let box_word = seq![66u8, 111, 117, 110, 100, 105, 110, 103, 66, 111, 120, 58];
    let hires_word = seq![72u8, 105, 82, 101, 115];
    let percents = seq![37u8, 37];
    match t {
        Tier::Standard => percents + box_word,
        Tier::HighPrecision => percents + hires_word + box_word,
    }
}

pub open spec fn space_sep() -> Seq<u8> {
    seq![32u8]
}

/// The line made of a marker, the whitespace `ws`, the four fields `n` and
/// the trailing whitespace `tr`.
#[verifier::opaque]
pub open spec fn record_line(t: Tier, ws: Seq<u8>, n: Seq<Seq<u8>>, tr: Seq<u8>) -> Seq<u8> {
    marker(t) + ws + n[0] + space_sep() + n[1] + space_sep() + n[2] + space_sep() + n[3] + tr
}

/// `line` is a record of tier `t` whose four numbers are `n`.
pub open spec fn denotes(line: Seq<u8>, t: Tier, n: Seq<Seq<u8>>) -> bool {
    &&& n.len() == 4
    &&& forall|k: int| 0 <= k < 4 ==> is_decimal(#[trigger] n[k])
    &&& exists|ws: Seq<u8>, tr: Seq<u8>|
        all_spaces(ws) && all_spaces(tr) && line == #[trigger] record_line(t, ws, n, tr)
}

/// What a line records, if it is a record line.
pub open spec fn record_of(line: Seq<u8>) -> Option<(Tier, Seq<Seq<u8>>)> {
    if exists|t: Tier, n: Seq<Seq<u8>>| denotes(line, t, n) {
        Some(choose|t: Tier, n: Seq<Seq<u8>>| denotes(line, t, n))
    } else {
        None
    }
}

/// The fields of a record sit at fixed places: after the marker a run of
/// whitespace ending before a field byte, then each field as a maximal run
/// of field bytes, separated by single spaces.
proof fn lemma_record_layout(t: Tier, ws: Seq<u8>, n: Seq<Seq<u8>>, tr: Seq<u8>)
    requires
        n.len() == 4,
        forall|k: int| 0 <= k < 4 ==> is_decimal(#[trigger] n[k]),
        all_spaces(ws),
        all_spaces(tr),
    ensures
        ({
            let line = record_line(t, ws, n, tr);
            let m = marker(t).len() as int;
            let b0 = m + ws.len();
            let e0 = b0 + n[0].len();
            let e1 = e0 + 1 + n[1].len();
            let e2 = e1 + 1 + n[2].len();
            let e3 = e2 + 1 + n[3].len();
            &&& line.len() == e3 + tr.len()
            &&& forall|p: int| e3 <= p < line.len() ==> is_space(#[trigger] line[p])
            &&& line.subrange(0, m) == marker(t)
            &&& forall|p: int| m <= p < b0 ==> is_space(#[trigger] line[p])
            &&& n[0].len() > 0 && n[1].len() > 0 && n[2].len() > 0 && n[3].len() > 0
            &&& !is_space(line[b0])
            &&& forall|p: int| b0 <= p < e0 ==> is_field_byte(#[trigger] line[p])
            &&& forall|p: int| e0 + 1 <= p < e1 ==> is_field_byte(#[trigger] line[p])
            &&& forall|p: int| e1 + 1 <= p < e2 ==> is_field_byte(#[trigger] line[p])
            &&& forall|p: int| e2 + 1 <= p < e3 ==> is_field_byte(#[trigger] line[p])
            &&& line[e0] == 32 && line[e1] == 32 && line[e2] == 32
            &&& line.subrange(b0, e0) == n[0]
            &&& line.subrange(e0 + 1, e1) == n[1]
            &&& line.subrange(e1 + 1, e2) == n[2]
            &&& line.subrange(e2 + 1, e3) == n[3]
        }),
{
    reveal(record_line);
    let line = record_line(t, ws, n, tr);
    let m = marker(t).len() as int;
    let b0 = m + ws.len();
    let e0 = b0 + n[0].len();
    let e1 = e0 + 1 + n[1].len();
    let e2 = e1 + 1 + n[2].len();
    let e3 = e2 + 1 + n[3].len();
    assert forall|k: int| 0 <= k < 4 implies n[k].len() > 0 && forall|p: int|
        0 <= p < n[k].len() ==> is_field_byte(#[trigger] n[k][p]) by {
        lemma_decimal_bytes(n[k]);
    }
    assert(line.subrange(0, m) =~= marker(t));
    assert(line.subrange(b0, e0) =~= n[0]);
    assert(line.subrange(e0 + 1, e1) =~= n[1]);
    assert(line.subrange(e1 + 1, e2) =~= n[2]);
    assert(line.subrange(e2 + 1, e3) =~= n[3]);
    assert forall|p: int| m <= p < b0 implies is_space(#[trigger] line[p]) by {
        assert(line[p] == ws[p - m]);
    }
    assert(line[b0] == n[0][0]);
    assert forall|p: int| b0 <= p < e0 implies is_field_byte(#[trigger] line[p]) by {
        assert(line[p] == n[0][p - b0]);
    }
    assert forall|p: int| e0 + 1 <= p < e1 implies is_field_byte(#[trigger] line[p]) by {
        assert(line[p] == n[1][p - e0 - 1]);
    }
    assert forall|p: int| e1 + 1 <= p < e2 implies is_field_byte(#[trigger] line[p]) by {
        assert(line[p] == n[2][p - e1 - 1]);
    }
    assert forall|p: int| e2 + 1 <= p < e3 implies is_field_byte(#[trigger] line[p]) by {
        assert(line[p] == n[3][p - e2 - 1]);
    }
    assert forall|p: int| e3 <= p < line.len() implies is_space(#[trigger] line[p]) by {
        assert(line[p] == tr[p - e3]);
    }
}

/// A decimal is non-empty and made of field bytes.
proof fn lemma_decimal_bytes(s: Seq<u8>)
    requires
        is_decimal(s),
    ensures
        s.len() > 0,
        forall|p: int| 0 <= p < s.len() ==> is_field_byte(#[trigger] s[p]),
{
    if s.len() > 0 && s[0] == 45 {
        let u = s.subrange(1, s.len() as int);
        assert forall|p: int| 0 <= p < s.len() implies is_field_byte(#[trigger] s[p]) by {
            if p > 0 {
                assert(s[p] == u[p - 1]);
            }
        }
    }
}


/// A line records at most one tier and one rectangle.
pub proof fn lemma_record_unique(line: Seq<u8>, t1: Tier, n1: Seq<Seq<u8>>, t2: Tier, n2: Seq<Seq<u8>>)
    requires
        denotes(line, t1, n1),
        denotes(line, t2, n2),
    ensures
        t1 == t2,
        n1 == n2,
{
    let (ws1, tr1) = choose|ws1: Seq<u8>, tr1: Seq<u8>|
        all_spaces(ws1) && all_spaces(tr1) && line == #[trigger] record_line(t1, ws1, n1, tr1);
    let (ws2, tr2) = choose|ws2: Seq<u8>, tr2: Seq<u8>|
        all_spaces(ws2) && all_spaces(tr2) && line == #[trigger] record_line(t2, ws2, n2, tr2);
    lemma_marker_of_record(t1, ws1, n1, tr1);
    lemma_marker_of_record(t2, ws2, n2, tr2);
    lemma_marker_unique(line, t1, t2);
    lemma_layouts_agree(line, t1, ws1, n1, tr1, ws2, n2, tr2);
}

/// Two readings of one line with the same marker have the same fields.
proof fn lemma_layouts_agree(
    line: Seq<u8>,
    t: Tier,
    ws1: Seq<u8>,
    n1: Seq<Seq<u8>>,
    tr1: Seq<u8>,
    ws2: Seq<u8>,
    n2: Seq<Seq<u8>>,
    tr2: Seq<u8>,
)
    requires
        n1.len() == 4,
        forall|k: int| 0 <= k < 4 ==> is_decimal(#[trigger] n1[k]),
        n2.len() == 4,
        forall|k: int| 0 <= k < 4 ==> is_decimal(#[trigger] n2[k]),
        all_spaces(ws1),
        all_spaces(tr1),
        all_spaces(ws2),
        all_spaces(tr2),
        line == record_line(t, ws1, n1, tr1),
        line == record_line(t, ws2, n2, tr2),
    ensures
        n1 == n2,
{
    lemma_record_layout(t, ws1, n1, tr1);
    let m = marker(t).len() as int;
    let b0 = m + ws1.len();
    let e0 = b0 + n1[0].len();
    let e1 = e0 + 1 + n1[1].len();
    let e2 = e1 + 1 + n1[2].len();
    let e3 = e2 + 1 + n1[3].len();
    lemma_fields_forced(line, n2, ws2, tr2, m, b0, e0, e1, e2, e3);
    assert(n1 =~= n2);
}

proof fn lemma_marker_of_record(t: Tier, ws: Seq<u8>, n: Seq<Seq<u8>>, tr: Seq<u8>)
    ensures
        starts_with_marker(record_line(t, ws, n, tr), t),
{
    reveal(record_line);
    let line = record_line(t, ws, n, tr);
    assert(line.subrange(0, marker(t).len() as int) =~= marker(t));
}

/// No line starts with both markers.
proof fn lemma_marker_unique(line: Seq<u8>, t1: Tier, t2: Tier)
    requires
        starts_with_marker(line, t1),
        starts_with_marker(line, t2),
    ensures
        t1 == t2,
{
    assert(marker(Tier::Standard)[2] == 66);
    assert(marker(Tier::HighPrecision)[2] == 72);
    assert(line.subrange(0, marker(t1).len() as int)[2] == line[2]);
    assert(line.subrange(0, marker(t2).len() as int)[2] == line[2]);
}

/// What `record_of` gives for a record line.
pub proof fn lemma_record_of(line: Seq<u8>, t: Tier, n: Seq<Seq<u8>>)
    requires
        denotes(line, t, n),
    ensures
        record_of(line) == Some((t, n)),
{
    let c = choose|t2: Tier, n2: Seq<Seq<u8>>| denotes(line, t2, n2);
    lemma_record_unique(line, t, n, c.0, c.1);
}

/// A line cut at these places, with the expected separators and four
/// decimals, is a record.
proof fn lemma_record_from_fields(
    line: Seq<u8>,
    t: Tier,
    m: int,
    b0: int,
    e0: int,
    e1: int,
    e2: int,
    e3: int,
)
    requires
        starts_with_marker(line, t),
        m == marker(t).len(),
        m <= b0 <= e0 < e1 < e2 < e3 <= line.len(),
        e0 + 1 <= e1 && e1 + 1 <= e2 && e2 + 1 <= e3,
        forall|p: int| e3 <= p < line.len() ==> is_space(#[trigger] line[p]),
        forall|p: int| m <= p < b0 ==> is_space(#[trigger] line[p]),
        line[e0] == 32 && line[e1] == 32 && line[e2] == 32,
        is_decimal(line.subrange(b0, e0)),
        is_decimal(line.subrange(e0 + 1, e1)),
        is_decimal(line.subrange(e1 + 1, e2)),
        is_decimal(line.subrange(e2 + 1, e3)),
    ensures
        denotes(
            line,
            t,
            seq![
                line.subrange(b0, e0),
                line.subrange(e0 + 1, e1),
                line.subrange(e1 + 1, e2),
                line.subrange(e2 + 1, e3),
            ],
        ),
{
    reveal(record_line);
    let n = seq![
        line.subrange(b0, e0),
        line.subrange(e0 + 1, e1),
        line.subrange(e1 + 1, e2),
        line.subrange(e2 + 1, e3),
    ];
    let ws = line.subrange(m, b0);
    let tr = line.subrange(e3, line.len() as int);
    assert forall|k: int| 0 <= k < 4 implies is_decimal(#[trigger] n[k]) by {}
    assert(all_spaces(ws));
    assert(all_spaces(tr));
    assert(line =~= record_line(t, ws, n, tr));
}

/// Where the scans of a record's fields must stop, if the line is a record.
proof fn lemma_fields_forced(
    line: Seq<u8>,
    n: Seq<Seq<u8>>,
    ws: Seq<u8>,
    tr: Seq<u8>,
    m: int,
    b0: int,
    e0: int,
    e1: int,
    e2: int,
    e3: int,
)
    requires
        n.len() == 4,
        forall|k: int| 0 <= k < 4 ==> is_decimal(#[trigger] n[k]),
        all_spaces(ws),
        all_spaces(tr),
        exists|t: Tier| line == record_line(t, ws, n, tr) && m == marker(t).len(),
        m <= b0 <= line.len(),
        forall|p: int| m <= p < b0 ==> is_space(#[trigger] line[p]),
        b0 == line.len() || !is_space(line[b0]),
        b0 <= e0 <= line.len(),
        forall|p: int| b0 <= p < e0 ==> is_field_byte(#[trigger] line[p]),
        e0 == line.len() || !is_field_byte(line[e0]),
        ({
            let b1 = if e0 < line.len() { e0 + 1 } else { line.len() as int };
            &&& b1 <= e1 <= line.len()
            &&& forall|p: int| b1 <= p < e1 ==> is_field_byte(#[trigger] line[p])
            &&& e1 == line.len() || !is_field_byte(line[e1])
        }),
        ({
            let b2 = if e1 < line.len() { e1 + 1 } else { line.len() as int };
            &&& b2 <= e2 <= line.len()
            &&& forall|p: int| b2 <= p < e2 ==> is_field_byte(#[trigger] line[p])
            &&& e2 == line.len() || !is_field_byte(line[e2])
        }),
        ({
            let b3 = if e2 < line.len() { e2 + 1 } else { line.len() as int };
            &&& b3 <= e3 <= line.len()
            &&& forall|p: int| b3 <= p < e3 ==> is_field_byte(#[trigger] line[p])
            &&& e3 == line.len() || !is_field_byte(line[e3])
        }),
    ensures
        e0 < line.len() && line[e0] == 32,
        e1 < line.len() && line[e1] == 32,
        e2 < line.len() && line[e2] == 32,
        forall|p: int| e3 <= p < line.len() ==> is_space(#[trigger] line[p]),
        line.subrange(b0, e0) == n[0],
        line.subrange(e0 + 1, e1) == n[1],
        line.subrange(e1 + 1, e2) == n[2],
        line.subrange(e2 + 1, e3) == n[3],
{
    let t = choose|t: Tier| line == record_line(t, ws, n, tr) && m == marker(t).len();
    lemma_record_layout(t, ws, n, tr);
    let c0 = m + ws.len();
    let f0 = c0 + n[0].len();
    let f1 = f0 + 1 + n[1].len();
    let f2 = f1 + 1 + n[2].len();
    assert(b0 == c0) by {
        if b0 < c0 {
            assert(is_space(line[b0]));
        } else if b0 > c0 {
            assert(is_space(line[c0]));
        }
    }
    assert(e0 == f0) by {
        if e0 < f0 {
            assert(is_field_byte(line[e0]));
        } else if e0 > f0 {
            assert(is_field_byte(line[f0]));
        }
    }
    assert(e1 == f1) by {
        if e1 < f1 {
            assert(is_field_byte(line[e1]));
        } else if e1 > f1 {
            assert(is_field_byte(line[f1]));
        }
    }
    assert(e2 == f2) by {
        if e2 < f2 {
            assert(is_field_byte(line[e2]));
        } else if e2 > f2 {
            assert(is_field_byte(line[f2]));
        }
    }
    let f3 = f2 + 1 + n[3].len();
    assert(e3 == f3) by {
        if e3 < f3 {
            assert(is_field_byte(line[e3]));
        } else if e3 > f3 {
            assert(is_field_byte(line[f3]));
        }
    }
}

/// When the scans after a marker do not find four decimals laid out as a
/// record asks, the line is no record.
proof fn lemma_no_record(line: Seq<u8>, t: Tier, m: int, b0: int, e0: int, e1: int, e2: int, e3: int)
    requires
        m == marker(t).len(),
        forall|t2: Tier| #[trigger] starts_with_marker(line, t2) ==> t2 == t,
        m <= b0 <= line.len(),
        forall|p: int| m <= p < b0 ==> is_space(#[trigger] line[p]),
        b0 == line.len() || !is_space(line[b0]),
        b0 <= e0 <= line.len(),
        forall|p: int| b0 <= p < e0 ==> is_field_byte(#[trigger] line[p]),
        e0 == line.len() || !is_field_byte(line[e0]),
        ({
            let b1 = if e0 < line.len() { e0 + 1 } else { line.len() as int };
            &&& b1 <= e1 <= line.len()
            &&& forall|p: int| b1 <= p < e1 ==> is_field_byte(#[trigger] line[p])
            &&& e1 == line.len() || !is_field_byte(line[e1])
        }),
        ({
            let b2 = if e1 < line.len() { e1 + 1 } else { line.len() as int };
            &&& b2 <= e2 <= line.len()
            &&& forall|p: int| b2 <= p < e2 ==> is_field_byte(#[trigger] line[p])
            &&& e2 == line.len() || !is_field_byte(line[e2])
        }),
        ({
            let b3 = if e2 < line.len() { e2 + 1 } else { line.len() as int };
            &&& b3 <= e3 <= line.len()
            &&& forall|p: int| b3 <= p < e3 ==> is_field_byte(#[trigger] line[p])
            &&& e3 == line.len() || !is_field_byte(line[e3])
        }),
        !({
            &&& e0 < line.len() && line[e0] == 32
            &&& e1 < line.len() && line[e1] == 32
            &&& e2 < line.len() && line[e2] == 32
            &&& forall|p: int| e3 <= p < line.len() ==> is_space(#[trigger] line[p])
            &&& is_decimal(line.subrange(b0, e0))
            &&& is_decimal(line.subrange(e0 + 1, e1))
            &&& is_decimal(line.subrange(e1 + 1, e2))
            &&& is_decimal(line.subrange(e2 + 1, e3))
        }),
    ensures
        forall|t2: Tier, n2: Seq<Seq<u8>>| !denotes(line, t2, n2),
{
    assert forall|t2: Tier, n2: Seq<Seq<u8>>| !denotes(line, t2, n2) by {
        if denotes(line, t2, n2) {
            let (ws2, tr2) = choose|ws2: Seq<u8>, tr2: Seq<u8>|
                all_spaces(ws2) && all_spaces(tr2) && line == #[trigger] record_line(t2, ws2, n2, tr2);
            lemma_record_layout(t2, ws2, n2, tr2);
            assert(starts_with_marker(line, t2));
            lemma_fields_forced(line, n2, ws2, tr2, m, b0, e0, e1, e2, e3);
            assert(is_decimal(n2[0]) && is_decimal(n2[1]) && is_decimal(n2[2]) && is_decimal(n2[3]));
        }
    }
}

fn space_byte(c: u8) -> (r: bool)
    ensures
        r == is_space(c),
{
    c == 9 || c == 10 || c == 11 || c == 12 || c == 13 || c == 32
}

fn field_byte(c: u8) -> (r: bool)
    ensures
        r == is_field_byte(c),
{
    (48 <= c && c <= 57) || c == 46 || c == 45
}

/// Whether `pat` occurs in `line` at `pos`.
fn matches_at(line: &[u8], pos: usize, pat: &[u8]) -> (r: bool)
    requires
        pos <= line@.len(),
    ensures
        r == (pos + pat@.len() <= line@.len() && line@.subrange(pos as int, pos + pat@.len())
            == pat@),
{
    if pat.len() > line.len() - pos {
        return false;
    }
    let n = line.len();
    let mut k: usize = 0;
    while k < pat.len()
        invariant
            n == line@.len(),
            pos + pat@.len() <= line@.len(),
            k <= pat@.len(),
            forall|q: int| 0 <= q < k ==> line@[pos + q] == pat@[q],
        decreases pat@.len() - k,
    {
        if line[pos + k] != pat[k] {
            proof {
                assert(line@.subrange(pos as int, pos + pat@.len())[k as int] != pat@[k as int]);
            }
            return false;
        }
        k = k + 1;
    }
    proof {
        assert(line@.subrange(pos as int, pos + pat@.len()) =~= pat@);
    }
    true
}

pub open spec fn starts_with_marker(line: Seq<u8>, t: Tier) -> bool {
    marker(t).len() <= line.len() && line.subrange(0, marker(t).len() as int) == marker(t)
}

/// The tier of the marker that `line` starts with, and the marker's length.
fn match_marker(line: &[u8]) -> (r: Option<(Tier, usize)>)
    ensures
        match r {
            Some((t, m)) => m == marker(t).len() && starts_with_marker(line@, t) && forall|
                t2: Tier,
            | #[trigger] starts_with_marker(line@, t2) ==> t2 == t,
            None => forall|t: Tier| !#[trigger] starts_with_marker(line@, t),
        },
{
    let percents: [u8; 2] = [37, 37];
    let hires: [u8; 5] = [72, 105, 82, 101, 115];
    let word: [u8; 12] = [66, 111, 117, 110, 100, 105, 110, 103, 66, 111, 120, 58];
    proof {
        assert(percents@ =~= seq![37u8, 37]);
        assert(hires@ =~= seq![72u8, 105, 82, 101, 115]);
        assert(word@ =~= seq![66u8, 111, 117, 110, 100, 105, 110, 103, 66, 111, 120, 58]);
        assert(marker(Tier::Standard)[2] == 66);
        assert(marker(Tier::HighPrecision)[2] == 72);
        assert(marker(Tier::Standard) =~= percents@ + word@);
        assert(marker(Tier::HighPrecision) =~= percents@ + hires@ + word@);
        assert(marker(Tier::Standard).subrange(0, 2) =~= percents@);
        assert(marker(Tier::HighPrecision).subrange(0, 2) =~= percents@);
        assert(marker(Tier::Standard).subrange(2, 14) =~= word@);
        assert(marker(Tier::HighPrecision).subrange(2, 7) =~= hires@);
        assert(marker(Tier::HighPrecision).subrange(7, 19) =~= word@);
    }
    if !matches_at(line, 0, percents.as_slice()) {
        proof {
            assert forall|t: Tier| !#[trigger] starts_with_marker(line@, t) by {
                if starts_with_marker(line@, t) {
                    assert(line@.subrange(0, 2) =~= line@.subrange(0, marker(t).len() as int).subrange(
                        0,
                        2,
                    ));
                    assert(line@.subrange(0, 2) == percents@);
                }
            }
        }
        return None;
    }
    if matches_at(line, 2, word.as_slice()) {
        proof {
            assert(line@.subrange(0, 14) =~= line@.subrange(0, 2) + line@.subrange(2, 14));
            assert forall|t2: Tier| #[trigger] starts_with_marker(line@, t2) implies t2 == Tier::Standard by {
                assert(line@.subrange(0, marker(t2).len() as int)[2] == line@[2]);
            }
        }
        return Some((Tier::Standard, 14));
    }
    if line.len() >= 7 && matches_at(line, 2, hires.as_slice()) && matches_at(line, 7, word.as_slice()) {
        proof {
            assert(line@.subrange(0, 19) =~= line@.subrange(0, 2) + line@.subrange(2, 7) + line@.subrange(7, 19));
            assert forall|t2: Tier| #[trigger] starts_with_marker(line@, t2) implies t2 == Tier::HighPrecision by {
                assert(line@.subrange(0, marker(t2).len() as int)[2] == line@[2]);
            }
        }
        return Some((Tier::HighPrecision, 19));
    }
    proof {
        assert forall|t: Tier| !#[trigger] starts_with_marker(line@, t) by {
            if starts_with_marker(line@, t) {
                let pre = line@.subrange(0, marker(t).len() as int);
                if t == Tier::Standard {
                    assert(line@.subrange(2, 14) =~= pre.subrange(2, 14));
                    assert(line@.subrange(2, 14) == word@);
                } else {
                    assert(line@.subrange(2, 7) =~= pre.subrange(2, 7));
                    assert(line@.subrange(7, 19) =~= pre.subrange(7, 19));
                    assert(line@.subrange(2, 7) == hires@);
                    assert(line@.subrange(7, 19) == word@);
                }
            }
        }
    }
    None
}

/// The end of the run of whitespace that starts at `start`.
fn skip_spaces(line: &[u8], start: usize) -> (r: usize)
    requires
        start <= line@.len(),
    ensures
        start <= r <= line@.len(),
        forall|p: int| start <= p < r ==> is_space(#[trigger] line@[p]),
        r == line@.len() || !is_space(line@[r as int]),
{
    let mut i = start;
    while i < line.len() && space_byte(line[i])
        invariant
            start <= i <= line@.len(),
            forall|p: int| start <= p < i ==> is_space(#[trigger] line@[p]),
        decreases line@.len() - i,
    {
        i = i + 1;
    }
    i
}

/// The end of the run of field bytes that starts at `start`.
fn scan_field(line: &[u8], start: usize) -> (r: usize)
    requires
        start <= line@.len(),
    ensures
        start <= r <= line@.len(),
        forall|p: int| start <= p < r ==> is_field_byte(#[trigger] line@[p]),
        r == line@.len() || !is_field_byte(line@[r as int]),
{
    let mut i = start;
    while i < line.len() && field_byte(line[i])
        invariant
            start <= i <= line@.len(),
            forall|p: int| start <= p < i ==> is_field_byte(#[trigger] line@[p]),
        decreases line@.len() - i,
    {
        i = i + 1;
    }
    i
}

/// Whether `line[lo..hi]` is an unsigned decimal.
fn unsigned_decimal_at(line: &[u8], lo: usize, hi: usize) -> (r: bool)
    requires
        lo <= hi <= line@.len(),
    ensures
        r == is_unsigned_decimal(line@.subrange(lo as int, hi as int)),
{
    let ghost s = line@.subrange(lo as int, hi as int);
    let mut k = lo;
    let mut digit = false;
    let mut dot = false;
    while k < hi
        invariant
            lo <= k <= hi <= line@.len(),
            s == line@.subrange(lo as int, hi as int),
            forall|p: int| 0 <= p < k - lo ==> is_digit(#[trigger] s[p]) || s[p] == 46,
            digit ==> exists|p: int| 0 <= p < k - lo && is_digit(#[trigger] s[p]),
            !digit ==> forall|p: int| 0 <= p < k - lo ==> !is_digit(#[trigger] s[p]),
            dot ==> exists|p: int| 0 <= p < k - lo && #[trigger] s[p] == 46,
            !dot ==> forall|p: int| 0 <= p < k - lo ==> #[trigger] s[p] != 46,
            forall|p: int, q: int|
                #![trigger s[p], s[q]]
                0 <= p < k - lo && 0 <= q < k - lo && s[p] == 46 && s[q] == 46 ==> p == q,
        decreases hi - k,
    {
        let c = line[k];
        assert(s[k - lo] == c);
        if c == 46 {
            if dot {
                proof {
                    let p = choose|p: int| 0 <= p < k - lo && #[trigger] s[p] == 46;
                    assert(s[p] == 46 && s[k - lo] == 46);
                }
                return false;
            }
            dot = true;
        } else if 48 <= c && c <= 57 {
            digit = true;
        } else {
            return false;
        }
        k = k + 1;
    }
    proof {
        if !digit {
            assert(!exists|p: int| 0 <= p < s.len() && is_digit(#[trigger] s[p]));
        }
    }
    digit
}

/// Whether `line[lo..hi]` is a decimal.
fn decimal_at(line: &[u8], lo: usize, hi: usize) -> (r: bool)
    requires
        lo <= hi <= line@.len(),
    ensures
        r == is_decimal(line@.subrange(lo as int, hi as int)),
{
    let ghost s = line@.subrange(lo as int, hi as int);
    if lo < hi && line[lo] == 45 {
        proof {
            assert(s.subrange(1, s.len() as int) =~= line@.subrange(lo + 1, hi as int));
        }
        unsigned_decimal_at(line, lo + 1, hi)
    } else {
        unsigned_decimal_at(line, lo, hi)
    }
}

/// A copy of `line[lo..hi]`.
fn copy_range(line: &[u8], lo: usize, hi: usize) -> (r: Vec<u8>)
    requires
        lo <= hi <= line@.len(),
    ensures
        r@ == line@.subrange(lo as int, hi as int),
{
    let mut r: Vec<u8> = Vec::new();
    let mut k = lo;
    while k < hi
        invariant
            lo <= k <= hi <= line@.len(),
            r@ == line@.subrange(lo as int, k as int),
        decreases hi - k,
    {
        r.push(line[k]);
        k = k + 1;
        proof {
            assert(r@ =~= line@.subrange(lo as int, k as int));
        }
    }
    r
}

/// Reads one diagnostic line: `Some` with the tier and the rectangle when
/// the line is a record, `None` for any other line (noise, or a marker
/// followed by fields that are not four decimals).
pub fn parse_record(line: &[u8]) -> (r: Option<(Tier, BoundingBox)>)
    ensures
        match r {
            Some((t, b)) => denotes(line@, t, b@) && record_of(line@) == Some((t, b@)),
            None => (forall|t: Tier, n: Seq<Seq<u8>>| !denotes(line@, t, n)) && record_of(
                line@,
            ) is None,
        },
{
    let len = line.len();
    let (t, m) = match match_marker(line) {
        Some(found) => found,
        None => {
            proof {
                assert forall|t2: Tier, n2: Seq<Seq<u8>>| !denotes(line@, t2, n2) by {
                    if denotes(line@, t2, n2) {
                        let (ws2, tr2) = choose|ws2: Seq<u8>, tr2: Seq<u8>|
                            all_spaces(ws2) && all_spaces(tr2) && line@ == #[trigger] record_line(
                                t2,
                                ws2,
                                n2,
                                tr2,
                            );
                        lemma_marker_of_record(t2, ws2, n2, tr2);
                    }
                }
            }
            return None;
        },
    };
    let b0 = skip_spaces(line, m);
    let e0 = scan_field(line, b0);
    let b1 = if e0 < len { e0 + 1 } else { len };
    let e1 = scan_field(line, b1);
    let b2 = if e1 < len { e1 + 1 } else { len };
    let e2 = scan_field(line, b2);
    let b3 = if e2 < len { e2 + 1 } else { len };
    let e3 = scan_field(line, b3);
    let end = skip_spaces(line, e3);
    let sep0 = e0 < len && line[e0] == 32;
    let sep1 = e1 < len && line[e1] == 32;
    let sep2 = e2 < len && line[e2] == 32;
    let d0 = decimal_at(line, b0, e0);
    let d1 = decimal_at(line, b1, e1);
    let d2 = decimal_at(line, b2, e2);
    let d3 = decimal_at(line, b3, e3);
    proof {
        assert((forall|p: int| e3 <= p < len ==> is_space(#[trigger] line@[p])) ==> end == len) by {
            if end < len {
                assert(!is_space(line@[end as int]));
            }
        }
    }
    if sep0 && sep1 && sep2 && end == len && d0 && d1 && d2 && d3 {
        let b = BoundingBox {
            x_min: copy_range(line, b0, e0),
            y_min: copy_range(line, b1, e1),
            x_max: copy_range(line, b2, e2),
            y_max: copy_range(line, b3, e3),
        };
        proof {
            lemma_record_from_fields(line@, t, m as int, b0 as int, e0 as int, e1 as int, e2 as int, e3 as int);
            assert(b@ == seq![
                line@.subrange(b0 as int, e0 as int),
                line@.subrange(b1 as int, e1 as int),
                line@.subrange(b2 as int, e2 as int),
                line@.subrange(b3 as int, e3 as int),
            ]);
            lemma_record_of(line@, t, b@);
        }
        Some((t, b))
    } else {
        proof {
            lemma_no_record(line@, t, m as int, b0 as int, e0 as int, e1 as int, e2 as int, e3 as int);
        }
        None
    }
}

} // verus!
