//! Alignment records and their stitching into genome-wide segments.
use vstd::prelude::*;

verus! {

/// One alignment between an interval of genome A and one of genome B,
/// in genome-wide coordinates.
#[derive(Debug, Clone, Copy, PartialEq, Eq, Structural)]
pub struct AlignmentSegment {
    pub abeg: i64,
    pub aend: i64,
    pub bbeg: i64,
    pub bend: i64,
    pub reverse: bool,
}

impl AlignmentSegment {
    /// A runs start to end; the B slope is negative exactly for reverse
    /// alignments.
    pub open spec fn oriented(self) -> bool {
        &&& self.abeg <= self.aend
        &&& (self.reverse <==> self.bbeg > self.bend)
    }

    pub open spec fn a_low(self) -> i64 {
        if self.abeg <= self.aend {
            self.abeg
        } else {
            self.aend
        }
    }

    pub open spec fn a_high(self) -> i64 {
        if self.abeg <= self.aend {
            self.aend
        } else {
            self.abeg
        }
    }

    pub open spec fn b_low(self) -> i64 {
        if self.bbeg <= self.bend {
            self.bbeg
        } else {
            self.bend
        }
    }

    pub open spec fn b_high(self) -> i64 {
        if self.bbeg <= self.bend {
            self.bend
        } else {
            self.bbeg
        }
    }
}

/// One raw alignment record, with coordinates local to its two sequences.
#[derive(Debug, Clone)]
pub struct AlnRecord {
    pub query_id: i64,
    pub target_id: i64,
    pub query_name: String,
    pub target_name: String,
    pub query_len: i64,
    pub target_len: i64,
    pub query_start: i64,
    pub query_end: i64,
    pub target_start: i64,
    pub target_end: i64,
    pub reverse: i32,
    pub diffs: i32,
}

/// Why a single record was not stitched.
#[derive(Debug, Clone, Copy, PartialEq, Eq, Structural)]
pub enum RecordError {
    /// Negative id or coordinate, or a start after its end.
    InvalidRecord,
    /// The record names a sequence the tables do not have, or runs past
    /// the end of its sequence.
    OutOfRange,
}

/// Ids and coordinates are non-negative and each interval is ordered.
pub open spec fn record_well_formed(r: AlnRecord) -> bool {
    &&& r.query_id >= 0
    &&& r.target_id >= 0
    &&& 0 <= r.query_start <= r.query_end
    &&& 0 <= r.target_start <= r.target_end
}

/// The record's sequences exist in the tables and hold its intervals.
pub open spec fn record_fits(r: AlnRecord, qb: Seq<i64>, tb: Seq<i64>) -> bool {
    &&& r.query_id + 1 < qb.len()
    &&& r.target_id + 1 < tb.len()
    &&& qb[r.query_id as int] + r.query_end <= qb[r.query_id + 1]
    &&& tb[r.target_id as int] + r.target_end <= tb[r.target_id + 1]
}

/// The genome-wide segment of a record. A reverse record is mirrored
/// about the end of its target sequence; a reverse record of zero extent
/// on B has no slope and counts as forward.
pub open spec fn stitched(r: AlnRecord, qb: Seq<i64>, tb: Seq<i64>) -> AlignmentSegment {
    let qoff = qb[r.query_id as int];
    let toff = tb[r.target_id as int];
    let tend = tb[r.target_id + 1];
    if r.reverse != 0 {
        AlignmentSegment {
            abeg: (qoff + r.query_start) as i64,
            aend: (qoff + r.query_end) as i64,
            bbeg: (tend - r.target_start) as i64,
            bend: (tend - r.target_end) as i64,
            reverse: r.target_start < r.target_end,
        }
    } else {
        AlignmentSegment {
            abeg: (qoff + r.query_start) as i64,
            aend: (qoff + r.query_end) as i64,
            bbeg: (toff + r.target_start) as i64,
            bend: (toff + r.target_end) as i64,
            reverse: false,
        }
    }
}

/// What stitching a record against the tables `qb`, `tb` gives.
pub open spec fn stitch_result(r: AlnRecord, qb: Seq<i64>, tb: Seq<i64>) -> Result<
    AlignmentSegment,
    RecordError,
> {
    if !record_well_formed(r) {
        Err(RecordError::InvalidRecord)
    } else if !record_fits(r, qb, tb) {
        Err(RecordError::OutOfRange)
    } else {
        Ok(stitched(r, qb, tb))
    }
}

/// Maps one record into genome-wide coordinates using the offset tables
/// of genome A (`qb`) and genome B (`tb`).
pub fn stitch_record(rec: &AlnRecord, qb: &Vec<i64>, tb: &Vec<i64>) -> (r: Result<
    AlignmentSegment,
    RecordError,
>)
    requires
        crate::offsets::table_ok(qb@),
        crate::offsets::table_ok(tb@),
    ensures
        r == stitch_result(*rec, qb@, tb@),
        r matches Ok(s) ==> s.oriented(),
{
    if rec.query_id < 0 || rec.target_id < 0 || rec.query_start < 0 || rec.query_start
        > rec.query_end || rec.target_start < 0 || rec.target_start > rec.target_end {
        return Err(RecordError::InvalidRecord);
    }
    let qn = qb.len() - 1;
    let tn = tb.len() - 1;
    if rec.query_id as u64 >= qn as u64 || rec.target_id as u64 >= tn as u64 {
        return Err(RecordError::OutOfRange);
    }
    let qid = rec.query_id as usize;
    let tid = rec.target_id as usize;
    let qoff = qb[qid];
    let toff = tb[tid];
    let tend = tb[tid + 1];
    if rec.query_end > qb[qid + 1] - qoff || rec.target_end > tend - toff {
        return Err(RecordError::OutOfRange);
    }
    let reverse = rec.reverse != 0;
    if reverse {
        Ok(
            AlignmentSegment {
                abeg: qoff + rec.query_start,
                aend: qoff + rec.query_end,
                bbeg: tend - rec.target_start,
                bend: tend - rec.target_end,
                reverse: rec.target_start < rec.target_end,
            },
        )
    } else {
        Ok(
            AlignmentSegment {
                abeg: qoff + rec.query_start,
                aend: qoff + rec.query_end,
                bbeg: toff + rec.target_start,
                bend: toff + rec.target_end,
                reverse: false,
            },
        )
    }
}

} // verus!
