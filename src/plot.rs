//! The dot plot of two genomes: sequence catalogs, offset tables and the
//! spatially indexed segment layer.
use vstd::prelude::*;

use crate::filter::views_of;
use crate::offsets::{
    lemma_interval_owner, lemma_offsets_table_ok, lemma_sum_prefix_step, lengths_ok, owns,
    scaffold_offsets, sum_prefix, table_ok,
};
use crate::segment::{
    record_fits, record_well_formed, stitch_record, stitch_result, stitched, AlignmentSegment,
    AlnRecord,
};
use crate::spatial::{hit_positions, Region, SpatialIndex};
use crate::text::{decimal, numbered_name};

verus! {

/// The length a catalog entry declares; absent or negative counts as zero.
pub open spec fn declared_len(l: Option<i64>) -> i64 {
    match l {
        Some(x) => if x > 0 {
            x
        } else {
            0
        },
        None => 0,
    }
}

pub open spec fn declared_lengths(d: Seq<(String, Option<i64>)>) -> Seq<i64> {
    Seq::new(d.len(), |i: int| declared_len(d[i].1))
}

/// The sequence a record names on genome A (`query`) or genome B.
pub open spec fn record_id(r: AlnRecord, query: bool) -> int {
    if query {
        r.query_id as int
    } else {
        r.target_id as int
    }
}

/// Where a record's interval ends on genome A (`query`) or genome B.
pub open spec fn record_end(r: AlnRecord, query: bool) -> i64 {
    if query {
        r.query_end
    } else {
        r.target_end
    }
}

/// `lens` after a record on sequence `id` ending at `end`: grown with
/// zero lengths until it holds `id`, then raised to at least `end`.
pub open spec fn grow_with(lens: Seq<i64>, id: int, end: i64) -> Seq<i64> {
    let g = if id < lens.len() {
        lens
    } else {
        lens + Seq::new((id + 1 - lens.len()) as nat, |i: int| 0i64)
    };
    g.update(id, if g[id] < end { end } else { g[id] })
}

/// Sequence lengths after scanning the well-formed records, one side.
pub open spec fn lengths_after(init: Seq<i64>, recs: Seq<AlnRecord>, query: bool) -> Seq<i64>
    decreases recs.len(),
{
    if recs.len() == 0 {
        init
    } else {
        let prev = lengths_after(init, recs.drop_last(), query);
        if record_well_formed(recs.last()) {
            grow_with(prev, record_id(recs.last(), query), record_end(recs.last(), query))
        } else {
            prev
        }
    }
}

/// The catalog's names: the declared ones, then `<prefix>_<index>` up to `n`.
pub open spec fn catalog_names(d: Seq<(String, Option<i64>)>, n: int, prefix: Seq<char>) -> Seq<
    Seq<char>,
> {
    Seq::new(
        n as nat,
        |i: int|
            if i < d.len() {
                d[i].0@
            } else {
                prefix + seq!['_'] + decimal(i as nat)
            },
    )
}

/// The segments of the well-formed records, in record order.
pub open spec fn stitched_all(recs: Seq<AlnRecord>, qb: Seq<i64>, tb: Seq<i64>) -> Seq<
    AlignmentSegment,
>
    decreases recs.len(),
{
    if recs.len() == 0 {
        Seq::empty()
    } else {
        let prev = stitched_all(recs.drop_last(), qb, tb);
        if record_well_formed(recs.last()) {
            prev.push(stitched(recs.last(), qb, tb))
        } else {
            prev
        }
    }
}

/// How many records are not well formed.
pub open spec fn malformed_count(recs: Seq<AlnRecord>) -> nat
    decreases recs.len(),
{
    if recs.len() == 0 {
        0
    } else {
        malformed_count(recs.drop_last()) + if record_well_formed(recs.last()) {
            0nat
        } else {
            1nat
        }
    }
}

/// `b` is the offset table of `lens`.
pub open spec fn table_of(lens: Seq<i64>, b: Seq<i64>) -> bool {
    &&& b.len() == lens.len() + 1
    &&& forall|i: int| 0 <= i <= lens.len() ==> #[trigger] b[i] == sum_prefix(lens, i)
}

/// The segment lies inside the sequence that owns its start, on each axis.
pub open spec fn placed(s: AlignmentSegment, qb: Seq<i64>, tb: Seq<i64>) -> bool {
    &&& exists|o: int| owns(qb, o, s.abeg as int) && s.aend <= qb[o + 1]
    &&& exists|o: int| owns(tb, o, s.b_low() as int) && s.b_high() <= tb[o + 1]
}

/// The mathematical content of a plot.
pub ghost struct PlotView {
    pub qnames: Seq<Seq<char>>,
    pub tnames: Seq<Seq<char>>,
    pub qlens: Seq<i64>,
    pub tlens: Seq<i64>,
    pub qb: Seq<i64>,
    pub tb: Seq<i64>,
    pub segments: Seq<AlignmentSegment>,
}

impl PlotView {
    pub open spec fn wf(self) -> bool {
        &&& self.qnames.len() == self.qlens.len()
        &&& self.tnames.len() == self.tlens.len()
        &&& lengths_ok(self.qlens)
        &&& lengths_ok(self.tlens)
        &&& table_of(self.qlens, self.qb)
        &&& table_of(self.tlens, self.tb)
        &&& forall|k: int|
            0 <= k < self.segments.len() ==> (#[trigger] self.segments[k]).oriented() && placed(
                self.segments[k],
                self.qb,
                self.tb,
            )
    }
}

/// Why a plot could not be built.
#[derive(Debug, Clone, Copy, PartialEq, Eq, Structural)]
pub enum BuildError {
    /// A genome's total length does not fit in an `i64`.
    LengthOverflow,
}

/// A dot plot of genome A (query) against genome B (target), with one
/// layer of segments.
pub struct RustPlot {
    pub query_sequences: Vec<String>,
    pub target_sequences: Vec<String>,
    pub query_lengths: Vec<i64>,
    pub target_lengths: Vec<i64>,
    pub query_genome_len: i64,
    pub target_genome_len: i64,
    pub query_boundaries: Vec<i64>,
    pub target_boundaries: Vec<i64>,
    pub index: SpatialIndex,
}

impl View for RustPlot {
    type V = PlotView;

    open spec fn view(&self) -> PlotView {
        PlotView {
            qnames: views_of(self.query_sequences@),
            tnames: views_of(self.target_sequences@),
            qlens: self.query_lengths@,
            tlens: self.target_lengths@,
            qb: self.query_boundaries@,
            tb: self.target_boundaries@,
            segments: self.index@,
        }
    }
}

proof fn lemma_grow_keeps(lens: Seq<i64>, id: int, end: i64)
    requires
        0 <= id,
    ensures
        grow_with(lens, id, end).len() >= lens.len(),
        id < grow_with(lens, id, end).len(),
        grow_with(lens, id, end)[id] >= end,
        forall|j: int| 0 <= j < lens.len() ==> grow_with(lens, id, end)[j] >= lens[j],
{
}

/// Every well-formed record fits within the lengths inferred from it.
proof fn lemma_lengths_cover(init: Seq<i64>, recs: Seq<AlnRecord>, query: bool, j: int)
    requires
        0 <= j < recs.len(),
        record_well_formed(recs[j]),
    ensures
        record_id(recs[j], query) < lengths_after(init, recs, query).len(),
        lengths_after(init, recs, query)[record_id(recs[j], query)] >= record_end(recs[j], query),
    decreases recs.len(),
{
    let prev = recs.drop_last();
    let last = recs.last();
    if j == recs.len() - 1 {
        lemma_grow_keeps(
            lengths_after(init, prev, query),
            record_id(last, query),
            record_end(last, query),
        );
    } else {
        assert(prev[j] == recs[j]);
        lemma_lengths_cover(init, prev, query, j);
        if record_well_formed(last) {
            lemma_grow_keeps(
                lengths_after(init, prev, query),
                record_id(last, query),
                record_end(last, query),
            );
        }
    }
}

/// A stitched record is oriented and lies inside its sequences.
pub proof fn lemma_stitched_placed(r: AlnRecord, qb: Seq<i64>, tb: Seq<i64>)
    requires
        table_ok(qb),
        table_ok(tb),
        record_well_formed(r),
        record_fits(r, qb, tb),
    ensures
        stitched(r, qb, tb).oriented(),
        placed(stitched(r, qb, tb), qb, tb),
{
    let s = stitched(r, qb, tb);
    let q = r.query_id as int;
    let t = r.target_id as int;
    assert(qb[q] <= qb[q + 1]);
    assert(tb[t] <= tb[t + 1]);
    assert(qb[0] <= qb[q]);
    assert(tb[0] <= tb[t]);
    lemma_interval_owner(qb, q, s.abeg as int, s.aend as int);
    lemma_interval_owner(tb, t, s.b_low() as int, s.b_high() as int);
}

fn well_formed(rec: &AlnRecord) -> (r: bool)
    ensures
        r == record_well_formed(*rec),
{
    rec.query_id >= 0 && rec.target_id >= 0 && 0 <= rec.query_start && rec.query_start
        <= rec.query_end && 0 <= rec.target_start && rec.target_start <= rec.target_end
}

/// Sequence lengths of one genome: declared lengths, grown and raised by
/// the well-formed records that name the genome's sequences.
fn infer_lengths(decl: &Vec<(String, Option<i64>)>, records: &Vec<AlnRecord>, query: bool) -> (r:
    Vec<i64>)
    ensures
        r@ == lengths_after(declared_lengths(decl@), records@, query),
        lengths_ok(r@),
        r@.len() >= decl@.len(),
{
    let ghost init = declared_lengths(decl@);
    let mut lens: Vec<i64> = Vec::new();
    let mut i: usize = 0;
    while i < decl.len()
        invariant
            0 <= i <= decl@.len(),
            init == declared_lengths(decl@),
            lens@ == init.subrange(0, i as int),
            lengths_ok(lens@),
        decreases decl@.len() - i,
    {
        let l = match decl[i].1 {
            Some(x) => if x > 0 {
                x
            } else {
                0
            },
            None => 0,
        };
        lens.push(l);
        i = i + 1;
        assert(lens@ =~= init.subrange(0, i as int));
    }
    assert(init.subrange(0, decl@.len() as int) =~= init);
    let mut k: usize = 0;
    while k < records.len()
        invariant
            0 <= k <= records@.len(),
            lens@ == lengths_after(init, records@.subrange(0, k as int), query),
            lengths_ok(lens@),
            lens@.len() >= decl@.len(),
        decreases records@.len() - k,
    {
        let rec = &records[k];
        assert(records@.subrange(0, k + 1).drop_last() =~= records@.subrange(0, k as int));
        if well_formed(rec) {
            let wanted: u64 = if query {
                rec.query_id as u64
            } else {
                rec.target_id as u64
            };
            let end = if query {
                rec.query_end
            } else {
                rec.target_end
            };
            let ghost l0 = lens@;
            while lens.len() as u64 <= wanted
                invariant
                    lens@.len() >= l0.len(),
                    lens@.subrange(0, l0.len() as int) == l0,
                    forall|j: int| l0.len() <= j < lens@.len() ==> lens@[j] == 0,
                    lengths_ok(lens@),
                    lens@.len() == l0.len() || lens@.len() <= wanted + 1,
                decreases wanted + 1 - lens@.len(),
            {
                lens.push(0);
                assert(lens@.subrange(0, l0.len() as int) =~= l0);
            }
            let id = wanted as usize;
            if lens[id] < end {
                lens.set(id, end);
            }
            assert(lens@ =~= grow_with(l0, id as int, end));
        }
        k = k + 1;
    }
    assert(records@.subrange(0, records@.len() as int) =~= records@);
    lens
}

/// The catalog's names for `n` sequences: the declared names, then
/// placeholders.
fn catalog_names_upto(decl: &Vec<(String, Option<i64>)>, n: usize, prefix: &str) -> (r: Vec<
    String,
>)
    requires
        decl@.len() <= n,
    ensures
        views_of(r@) == catalog_names(decl@, n as int, prefix@),
{
    let mut names: Vec<String> = Vec::new();
    let mut i: usize = 0;
    while i < n
        invariant
            decl@.len() <= n,
            0 <= i <= n,
            views_of(names@) == catalog_names(decl@, n as int, prefix@).subrange(0, i as int),
        decreases n - i,
    {
        let name = if i < decl.len() {
            decl[i].0.clone()
        } else {
            numbered_name(prefix, i)
        };
        let ghost before = names@;
        assert(name@ == catalog_names(decl@, n as int, prefix@)[i as int]);
        names.push(name);
        assert(views_of(names@) =~= views_of(before).push(name@));
        i = i + 1;
        assert(views_of(names@) =~= catalog_names(decl@, n as int, prefix@).subrange(0, i as int));
    }
    assert(catalog_names(decl@, n as int, prefix@).subrange(0, n as int) =~= catalog_names(
        decl@,
        n as int,
        prefix@,
    ));
    names
}

impl RustPlot {
    /// Internal consistency: the view is well formed and the totals are
    /// the last table entries.
    pub open spec fn wf(&self) -> bool {
        &&& self@.wf()
        &&& self.query_genome_len == self.query_boundaries@.last()
        &&& self.target_genome_len == self.target_boundaries@.last()
    }

    /// Builds a plot from alignment records and the two genomes' catalogs,
    /// given as (name, optional length) pairs. Records that are not well
    /// formed are skipped and counted.
    pub fn from_records(
        records: &Vec<AlnRecord>,
        query_sequences: &Vec<(String, Option<i64>)>,
        target_sequences: &Vec<(String, Option<i64>)>,
    ) -> (r: Result<(RustPlot, usize), BuildError>)
        ensures
            ({
                let ql = lengths_after(declared_lengths(query_sequences@), records@, true);
                let tl = lengths_after(declared_lengths(target_sequences@), records@, false);
                match r {
                    Ok((p, skipped)) => {
                        &&& p.wf()
                        &&& p@.qlens == ql
                        &&& p@.tlens == tl
                        &&& p@.qnames == catalog_names(query_sequences@, ql.len() as int, "query"@)
                        &&& p@.tnames == catalog_names(
                            target_sequences@,
                            tl.len() as int,
                            "target"@,
                        )
                        &&& p@.segments == stitched_all(records@, p@.qb, p@.tb)
                        &&& skipped == malformed_count(records@)
                    },
                    Err(e) => {
                        &&& e == BuildError::LengthOverflow
                        &&& (sum_prefix(ql, ql.len() as int) > i64::MAX || sum_prefix(
                            tl,
                            tl.len() as int,
                        ) > i64::MAX)
                    },
                }
            }),
            r is Ok ==> ({
                let ql = lengths_after(declared_lengths(query_sequences@), records@, true);
                let tl = lengths_after(declared_lengths(target_sequences@), records@, false);
                sum_prefix(ql, ql.len() as int) <= i64::MAX && sum_prefix(tl, tl.len() as int)
                    <= i64::MAX
            }),
    {
        let qlens = infer_lengths(query_sequences, records, true);
        let tlens = infer_lengths(target_sequences, records, false);
        let qb = match scaffold_offsets(&qlens) {
            Some(b) => b,
            None => return Err(BuildError::LengthOverflow),
        };
        let tb = match scaffold_offsets(&tlens) {
            Some(b) => b,
            None => return Err(BuildError::LengthOverflow),
        };
        proof {
            lemma_offsets_table_ok(qlens@, qb@);
            lemma_offsets_table_ok(tlens@, tb@);
            reveal_strlit("query");
            reveal_strlit("target");
        }
        let qnames = catalog_names_upto(query_sequences, qlens.len(), "query");
        let tnames = catalog_names_upto(target_sequences, tlens.len(), "target");
        let mut segments: Vec<AlignmentSegment> = Vec::new();
        let mut skipped: usize = 0;
        let mut k: usize = 0;
        while k < records.len()
            invariant
                0 <= k <= records@.len(),
                table_ok(qb@),
                table_ok(tb@),
                table_of(qlens@, qb@),
                table_of(tlens@, tb@),
                qlens@ == lengths_after(declared_lengths(query_sequences@), records@, true),
                tlens@ == lengths_after(declared_lengths(target_sequences@), records@, false),
                segments@ == stitched_all(records@.subrange(0, k as int), qb@, tb@),
                skipped == malformed_count(records@.subrange(0, k as int)),
                skipped <= k,
                forall|j: int|
                    0 <= j < segments@.len() ==> (#[trigger] segments@[j]).oriented() && placed(
                        segments@[j],
                        qb@,
                        tb@,
                    ),
            decreases records@.len() - k,
        {
            let rec = &records[k];
            assert(records@.subrange(0, k + 1).drop_last() =~= records@.subrange(0, k as int));
            assert(records@[k as int] == *rec);
            if well_formed(rec) {
                proof {
                    let q = rec.query_id as int;
                    let t = rec.target_id as int;
                    lemma_lengths_cover(
                        declared_lengths(query_sequences@),
                        records@,
                        true,
                        k as int,
                    );
                    lemma_lengths_cover(
                        declared_lengths(target_sequences@),
                        records@,
                        false,
                        k as int,
                    );
                    lemma_sum_prefix_step(qlens@, q);
                    lemma_sum_prefix_step(tlens@, t);
                    assert(record_fits(*rec, qb@, tb@));
                    lemma_stitched_placed(*rec, qb@, tb@);
                }
                match stitch_record(rec, &qb, &tb) {
                    Ok(s) => {
                        segments.push(s);
                    },
                    Err(_) => {},
                }
            } else {
                skipped = skipped + 1;
            }
            k = k + 1;
        }
        assert(records@.subrange(0, records@.len() as int) =~= records@);
        let query_genome_len = qb[qlens.len()];
        let target_genome_len = tb[tlens.len()];
        let index = SpatialIndex::build(segments);
        Ok(
            (
                RustPlot {
                    query_sequences: qnames,
                    target_sequences: tnames,
                    query_lengths: qlens,
                    target_lengths: tlens,
                    query_genome_len,
                    target_genome_len,
                    query_boundaries: qb,
                    target_boundaries: tb,
                    index,
                },
                skipped,
            ),
        )
    }
}

/// A copy of a list of lengths or offsets.
pub(crate) fn copy_table(v: &Vec<i64>) -> (r: Vec<i64>)
    ensures
        r@ == v@,
{
    let mut r: Vec<i64> = Vec::new();
    let mut i: usize = 0;
    while i < v.len()
        invariant
            0 <= i <= v@.len(),
            r@ == v@.subrange(0, i as int),
        decreases v@.len() - i,
    {
        r.push(v[i]);
        i = i + 1;
        assert(r@ =~= v@.subrange(0, i as int));
    }
    assert(v@.subrange(0, v@.len() as int) =~= v@);
    r
}

impl RustPlot {
    /// Total length of genome A.
    pub fn get_alen(&self) -> (r: i64)
        requires
            self.wf(),
        ensures
            r == self.query_boundaries@.last(),
            r == sum_prefix(self@.qlens, self@.qlens.len() as int),
    {
        self.query_genome_len
    }

    /// Total length of genome B.
    pub fn get_blen(&self) -> (r: i64)
        requires
            self.wf(),
        ensures
            r == self.target_boundaries@.last(),
            r == sum_prefix(self@.tlens, self@.tlens.len() as int),
    {
        self.target_genome_len
    }

    /// Number of segment layers.
    pub fn get_nlays(&self) -> (r: i32)
        ensures
            r == 1,
    {
        1
    }

    /// The offset table of genome A (`genome == 0`) or B (`genome == 1`);
    /// empty for any other genome.
    pub fn get_scaffold_boundaries(&self, genome: i32) -> (r: Vec<i64>)
        ensures
            genome == 0 ==> r@ == self.query_boundaries@,
            genome == 1 ==> r@ == self.target_boundaries@,
            genome != 0 && genome != 1 ==> r@.len() == 0,
    {
        if genome == 0 {
            copy_table(&self.query_boundaries)
        } else if genome == 1 {
            copy_table(&self.target_boundaries)
        } else {
            Vec::new()
        }
    }

    /// The segments of the plot's layer.
    pub fn segments(&self) -> (r: &Vec<AlignmentSegment>)
        ensures
            r@ == self@.segments,
    {
        self.index.segments()
    }

    /// The segments of `layer` whose bounding box shares a point with
    /// `[x, x + width] × [y, y + height]`, each once; empty for another
    /// layer or a rectangle without area.
    pub fn query_segments_in_region(&self, layer: i32, x: i64, y: i64, width: i64, height: i64) -> (r:
        Vec<AlignmentSegment>)
        ensures
            layer != 0 ==> r@.len() == 0,
            layer == 0 ==> exists|ix: Seq<usize>|
                hit_positions(ix, self@.segments, Region { x, y, w: width, h: height }) && r@
                    == ix.map_values(|i: usize| self@.segments[i as int]),
    {
        let mut out: Vec<AlignmentSegment> = Vec::new();
        if layer != 0 {
            return out;
        }
        let region = Region::new(x, y, width, height);
        let ix = self.index.query_indices(&region);
        let segs = self.index.segments();
        let mut k: usize = 0;
        while k < ix.len()
            invariant
                0 <= k <= ix@.len(),
                segs@ == self@.segments,
                hit_positions(ix@, segs@, region),
                out@ == ix@.subrange(0, k as int).map_values(|i: usize| segs@[i as int]),
            decreases ix@.len() - k,
        {
            out.push(segs[ix[k]]);
            k = k + 1;
            assert(out@ =~= ix@.subrange(0, k as int).map_values(|i: usize| segs@[i as int]));
        }
        assert(ix@.subrange(0, ix@.len() as int) =~= ix@);
        out
    }
}

} // verus!
