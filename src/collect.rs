//! Gathering the rectangles of a diagnostic stream, tier by tier, and
//! choosing the authoritative sequence.
use vstd::prelude::*;

use crate::error::TrimError;
use crate::record::{parse_record, record_of, BoundingBox, Tier};

verus! {

/// The rectangles of a sequence of boxes, as coordinate texts.
pub open spec fn boxes_view(v: Seq<BoundingBox>) -> Seq<Seq<Seq<u8>>> {
    v.map_values(|b: BoundingBox| b@)
}

/// The rectangles of tier `tier` after one more line.
pub open spec fn after_line(prev: Seq<Seq<Seq<u8>>>, line: Seq<u8>, tier: Tier) -> Seq<
    Seq<Seq<u8>>,
> {
    match record_of(line) {
        Some(rec) => if rec.0 == tier {
            prev.push(rec.1)
        } else {
            prev
        },
        None => prev,
    }
}

/// The rectangles of tier `tier` that `lines` record, in the order of the lines.
pub open spec fn tier_boxes(lines: Seq<Seq<u8>>, tier: Tier) -> Seq<Seq<Seq<u8>>>
    decreases lines.len(),
{
    if lines.len() == 0 {
        Seq::empty()
    } else {
        after_line(tier_boxes(lines.drop_last(), tier), lines.last(), tier)
    }
}

/// The record lines of `lines`, in their order.
pub open spec fn record_lines(lines: Seq<Seq<u8>>) -> Seq<Seq<u8>> {
    lines.filter(|l: Seq<u8>| record_of(l) is Some)
}

/// The rectangles of a stream are those of its record lines alone: lines
/// that are no record (noise, warnings, font notices, page headers) change
/// nothing, wherever they stand.
pub proof fn lemma_records_decide(lines: Seq<Seq<u8>>, tier: Tier)
    ensures
        tier_boxes(lines, tier) == tier_boxes(record_lines(lines), tier),
    decreases lines.len(),
{
    reveal(Seq::filter);
    if lines.len() > 0 {
        lemma_records_decide(lines.drop_last(), tier);
        let front = record_lines(lines.drop_last());
        if record_of(lines.last()) is Some {
            assert(record_lines(lines) == front.push(lines.last()));
            assert(front.push(lines.last()).drop_last() =~= front);
        } else {
            assert(record_lines(lines) == front);
        }
    }
}

/// Inserting lines that are no record anywhere into a stream leaves both of
/// its tiers as they were: two streams with the same record lines, in the
/// same order, give the same rectangles.
pub proof fn lemma_noise_ignored(l1: Seq<Seq<u8>>, l2: Seq<Seq<u8>>)
    requires
        record_lines(l1) == record_lines(l2),
    ensures
        tier_boxes(l1, Tier::Standard) == tier_boxes(l2, Tier::Standard),
        tier_boxes(l1, Tier::HighPrecision) == tier_boxes(l2, Tier::HighPrecision),
{
    lemma_records_decide(l1, Tier::Standard);
    lemma_records_decide(l2, Tier::Standard);
    lemma_records_decide(l1, Tier::HighPrecision);
    lemma_records_decide(l2, Tier::HighPrecision);
}

/// The authoritative sequence chosen from the standard and the
/// high-precision tier, or why there is none.
pub open spec fn authoritative(standard: Seq<Seq<Seq<u8>>>, high: Seq<Seq<Seq<u8>>>) -> Result<
    Seq<Seq<Seq<u8>>>,
    TrimError,
> {
    if standard.len() == 0 {
        Err(TrimError::NoBoundingBoxesFound)
    } else if high.len() == 0 {
        Ok(standard)
    } else if standard.len() != high.len() {
        Err(
            TrimError::PrecisionTierMismatch {
                standard: standard.len() as usize,
                high_precision: high.len() as usize,
            },
        )
    } else {
        Ok(high)
    }
}

/// The outcome of a rasterizer run: its rectangles are trusted only when it
/// exited successfully.
pub open spec fn run_outcome(
    tool_succeeded: bool,
    standard: Seq<Seq<Seq<u8>>>,
    high: Seq<Seq<Seq<u8>>>,
) -> Result<Seq<Seq<Seq<u8>>>, TrimError> {
    if !tool_succeeded {
        Err(TrimError::ToolExecutionFailed)
    } else {
        authoritative(standard, high)
    }
}

/// For any stream whose two tiers hold the same, non-zero number of
/// rectangles, a successful run yields the high-precision rectangles in the
/// order of their lines, and the standard ones are set aside.
pub proof fn lemma_high_precision_preferred(lines: Seq<Seq<u8>>)
    requires
        tier_boxes(lines, Tier::Standard).len() > 0,
        tier_boxes(lines, Tier::Standard).len() == tier_boxes(lines, Tier::HighPrecision).len(),
    ensures
        run_outcome(true, tier_boxes(lines, Tier::Standard), tier_boxes(lines, Tier::HighPrecision))
            == Ok::<Seq<Seq<Seq<u8>>>, TrimError>(tier_boxes(lines, Tier::HighPrecision)),
{
}

/// The rectangles met so far in a diagnostic stream, one sequence per tier.
pub struct BoxCollector {
    pub standard: Vec<BoundingBox>,
    pub high_precision: Vec<BoundingBox>,
}

impl BoxCollector {
    pub fn new() -> (r: BoxCollector)
        ensures
            r.standard@.len() == 0,
            r.high_precision@.len() == 0,
    {
        BoxCollector { standard: Vec::new(), high_precision: Vec::new() }
    }

    /// Takes one line of the stream: a record line adds its rectangle to its
    /// tier, any other line is ignored.
    pub fn feed_line(&mut self, line: &[u8])
        ensures
            boxes_view(final(self).standard@) == after_line(
                boxes_view(old(self).standard@),
                line@,
                Tier::Standard,
            ),
            boxes_view(final(self).high_precision@) == after_line(
                boxes_view(old(self).high_precision@),
                line@,
                Tier::HighPrecision,
            ),
    {
        let ghost s0 = boxes_view(self.standard@);
        let ghost h0 = boxes_view(self.high_precision@);
        match parse_record(line) {
            Some((Tier::Standard, b)) => {
                self.standard.push(b);
                assert(boxes_view(self.standard@) =~= s0.push(b@));
            },
            Some((Tier::HighPrecision, b)) => {
                self.high_precision.push(b);
                assert(boxes_view(self.high_precision@) =~= h0.push(b@));
            },
            None => {},
        }
    }
}

/// The lines' views.
pub open spec fn lines_view(lines: Seq<Vec<u8>>) -> Seq<Seq<u8>> {
    lines.map_values(|l: Vec<u8>| l@)
}

/// Splits the records of a diagnostic stream into the standard and the
/// high-precision rectangles, each in the order of the lines.
pub fn parse_ghostscript_output(lines: &Vec<Vec<u8>>) -> (r: (Vec<BoundingBox>, Vec<BoundingBox>))
    ensures
        boxes_view(r.0@) == tier_boxes(lines_view(lines@), Tier::Standard),
        boxes_view(r.1@) == tier_boxes(lines_view(lines@), Tier::HighPrecision),
{
    let mut c = BoxCollector::new();
    proof {
        assert(boxes_view(c.standard@) =~= tier_boxes(lines_view(lines@.subrange(0, 0)), Tier::Standard));
        assert(boxes_view(c.high_precision@) =~= tier_boxes(lines_view(lines@.subrange(0, 0)), Tier::HighPrecision));
    }
    let mut i: usize = 0;
    while i < lines.len()
        invariant
            i <= lines@.len(),
            boxes_view(c.standard@) == tier_boxes(lines_view(lines@.subrange(0, i as int)), Tier::Standard),
            boxes_view(c.high_precision@) == tier_boxes(
                lines_view(lines@.subrange(0, i as int)),
                Tier::HighPrecision,
            ),
        decreases lines@.len() - i,
    {
        c.feed_line(lines[i].as_slice());
        proof {
            let done = lines_view(lines@.subrange(0, i + 1));
            assert(done.drop_last() =~= lines_view(lines@.subrange(0, i as int)));
            assert(done.last() == lines@[i as int]@);
        }
        i = i + 1;
    }
    proof {
        assert(lines@.subrange(0, i as int) =~= lines@);
    }
    (c.standard, c.high_precision)
}

/// Chooses the rectangles of a finished rasterizer run: none when the run
/// failed or found no standard box, the high-precision tier when it is there
/// and as long as the standard one, else the standard tier.
pub fn compute_bounding_boxes(
    tool_succeeded: bool,
    standard: Vec<BoundingBox>,
    high_precision: Vec<BoundingBox>,
) -> (r: Result<Vec<BoundingBox>, TrimError>)
    ensures
        match r {
            Ok(v) => run_outcome(tool_succeeded, boxes_view(standard@), boxes_view(high_precision@))
                == Ok::<Seq<Seq<Seq<u8>>>, TrimError>(boxes_view(v@)),
            Err(e) => run_outcome(
                tool_succeeded,
                boxes_view(standard@),
                boxes_view(high_precision@),
            ) == Err::<Seq<Seq<Seq<u8>>>, TrimError>(e),
        },
{
    if !tool_succeeded {
        return Err(TrimError::ToolExecutionFailed);
    }
    if standard.len() == 0 {
        return Err(TrimError::NoBoundingBoxesFound);
    }
    if high_precision.len() == 0 {
        return Ok(standard);
    }
    if standard.len() != high_precision.len() {
        return Err(
            TrimError::PrecisionTierMismatch {
                standard: standard.len(),
                high_precision: high_precision.len(),
            },
        );
    }
    Ok(high_precision)
}

} // verus!
