//! Deriving a standalone plot restricted to the sequences two filters keep.
use vstd::prelude::*;

use crate::filter::{views_of, SequenceFilter};
use crate::offsets::{
    find_sequence_index, lemma_offsets_table_ok, lemma_owner_unique, lemma_sum_prefix_monotone,
    lemma_sum_prefix_step, lengths_ok, owns, scaffold_offsets, sum_prefix, table_ok,
};
use crate::plot::{copy_table, placed, table_of, PlotView, RustPlot};
use crate::segment::AlignmentSegment;
use crate::spatial::SpatialIndex;

verus! {

/// Why filtering refused to derive a plot.
#[derive(Debug, Clone, Copy, PartialEq, Eq, Structural)]
pub enum FilterError {
    /// A filter keeps no sequence of its genome.
    NoMatch,
}

/// `sel` lists indices below `n` in strictly increasing order.
pub open spec fn increasing(sel: Seq<usize>, n: int) -> bool {
    &&& forall|i: int, j: int| 0 <= i < j < sel.len() ==> sel[i] < sel[j]
    &&& forall|i: int| 0 <= i < sel.len() ==> sel[i] < n
}

/// The entries of `s` at the selected indices.
pub open spec fn pick<A>(s: Seq<A>, sel: Seq<usize>) -> Seq<A> {
    sel.map_values(|i: usize| s[i as int])
}

/// Where index `o` stands in the selection, if it is selected.
pub open spec fn slot(sel: Seq<usize>, o: int) -> Option<int> {
    if exists|k: int| 0 <= k < sel.len() && sel[k] == o {
        Some(choose|k: int| 0 <= k < sel.len() && sel[k] == o)
    } else {
        None
    }
}

/// The sequence that owns coordinate `c`.
pub open spec fn owner_of(b: Seq<i64>, c: int) -> int {
    choose|o: int| owns(b, o, c)
}

/// The offset table of `lens`, as 64-bit entries.
pub open spec fn new_table(lens: Seq<i64>) -> Seq<i64> {
    Seq::new((lens.len() + 1) as nat, |i: int| sum_prefix(lens, i) as i64)
}

/// Coordinate `c` moved from a sequence starting at `from` to one
/// starting at `to`.
pub open spec fn shifted(c: i64, from: i64, to: i64) -> i64 {
    (c - from + to) as i64
}

/// A segment re-expressed in the derived tables, or `None` when the
/// sequence that owns its start on either axis is not kept.
pub open spec fn remap_segment(
    s: AlignmentSegment,
    qb: Seq<i64>,
    tb: Seq<i64>,
    qsel: Seq<usize>,
    tsel: Seq<usize>,
    nqb: Seq<i64>,
    ntb: Seq<i64>,
) -> Option<AlignmentSegment> {
    let qo = owner_of(qb, s.abeg as int);
    let to = owner_of(tb, s.b_low() as int);
    match (slot(qsel, qo), slot(tsel, to)) {
        (Some(qk), Some(tk)) => Some(
            AlignmentSegment {
                abeg: shifted(s.abeg, qb[qo], nqb[qk]),
                aend: shifted(s.aend, qb[qo], nqb[qk]),
                bbeg: shifted(s.bbeg, tb[to], ntb[tk]),
                bend: shifted(s.bend, tb[to], ntb[tk]),
                reverse: s.reverse,
            },
        ),
        _ => None,
    }
}

/// The surviving segments, re-expressed, in their input order.
pub open spec fn remap_all(
    segs: Seq<AlignmentSegment>,
    qb: Seq<i64>,
    tb: Seq<i64>,
    qsel: Seq<usize>,
    tsel: Seq<usize>,
    nqb: Seq<i64>,
    ntb: Seq<i64>,
) -> Seq<AlignmentSegment>
    decreases segs.len(),
{
    if segs.len() == 0 {
        Seq::empty()
    } else {
        let prev = remap_all(segs.drop_last(), qb, tb, qsel, tsel, nqb, ntb);
        match remap_segment(segs.last(), qb, tb, qsel, tsel, nqb, ntb) {
            Some(x) => prev.push(x),
            None => prev,
        }
    }
}

/// The plot restricted to the selected sequences of each genome.
pub open spec fn subset_view(v: PlotView, qsel: Seq<usize>, tsel: Seq<usize>) -> PlotView {
    let ql = pick(v.qlens, qsel);
    let tl = pick(v.tlens, tsel);
    let nqb = new_table(ql);
    let ntb = new_table(tl);
    PlotView {
        qnames: pick(v.qnames, qsel),
        tnames: pick(v.tnames, tsel),
        qlens: ql,
        tlens: tl,
        qb: nqb,
        tb: ntb,
        segments: remap_all(v.segments, v.qb, v.tb, qsel, tsel, nqb, ntb),
    }
}

/// What filtering a plot gives: the plot itself when both filters keep
/// every sequence, an error when one keeps none of a genome that has
/// sequences, else the subset.
pub open spec fn filtered_view(v: PlotView, qf: SequenceFilter, tf: SequenceFilter) -> Result<
    PlotView,
    FilterError,
> {
    let qsel = qf.retained(v.qnames);
    let tsel = tf.retained(v.tnames);
    if qsel.len() == v.qnames.len() && tsel.len() == v.tnames.len() {
        Ok(v)
    } else if (qsel.len() == 0 && v.qnames.len() > 0) || (tsel.len() == 0 && v.tnames.len() > 0) {
        Err(FilterError::NoMatch)
    } else {
        Ok(subset_view(v, qsel, tsel))
    }
}

/// The indices a filter keeps are increasing and in range.
pub proof fn lemma_retained_increasing(f: SequenceFilter, names: Seq<Seq<char>>, n: int)
    requires
        0 <= n <= names.len() <= usize::MAX,
    ensures
        increasing(f.retained_upto(names, n), n),
        f.retained_upto(names, n).len() <= n,
    decreases n,
{
    if n > 0 {
        lemma_retained_increasing(f, names, n - 1);
        let prev = f.retained_upto(names, n - 1);
        let cur = f.retained_upto(names, n);
        if f.accepts(n - 1, names[n - 1]) {
            assert(cur == prev.push((n - 1) as usize));
            assert forall|i: int, j: int| 0 <= i < j < cur.len() implies cur[i] < cur[j] by {
                if j == cur.len() - 1 {
                    assert(cur[i] == prev[i]);
                } else {
                    assert(cur[i] == prev[i] && cur[j] == prev[j]);
                }
            }
        }
    }
}

/// In an increasing selection, the slot of a selected index is its position.
pub proof fn lemma_slot_of(sel: Seq<usize>, n: int, k: int)
    requires
        increasing(sel, n),
        0 <= k < sel.len(),
    ensures
        slot(sel, sel[k] as int) == Some(k),
{
    let j = choose|j: int| 0 <= j < sel.len() && sel[j] == sel[k];
    if j < k {
        assert(sel[j] < sel[k]);
    } else if j > k {
        assert(sel[k] < sel[j]);
    }
}

/// Selected lengths sum to no more than all of them.
pub proof fn lemma_pick_sum(lens: Seq<i64>, sel: Seq<usize>, m: int)
    requires
        lengths_ok(lens),
        increasing(sel, lens.len() as int),
        0 < m <= sel.len(),
    ensures
        sum_prefix(pick(lens, sel), m) <= sum_prefix(lens, sel[m - 1] + 1),
    decreases m,
{
    let p = pick(lens, sel);
    lemma_sum_prefix_step(p, m - 1);
    lemma_sum_prefix_step(lens, sel[m - 1] as int);
    if m > 1 {
        lemma_pick_sum(lens, sel, m - 1);
        lemma_sum_prefix_monotone(lens, sel[m - 2] + 1, sel[m - 1] as int);
    } else {
        lemma_sum_prefix_monotone(lens, 0, sel[0] as int);
    }
}

/// A coordinate interval owned by sequence `o` of the old table moves to
/// the interval owned by its slot `k` in the derived table.
pub proof fn lemma_shift_owned(
    lens: Seq<i64>,
    b: Seq<i64>,
    sel: Seq<usize>,
    nb: Seq<i64>,
    k: int,
    lo: int,
    hi: int,
)
    requires
        lengths_ok(lens),
        table_of(lens, b),
        increasing(sel, lens.len() as int),
        table_of(pick(lens, sel), nb),
        0 <= k < sel.len(),
        owns(b, sel[k] as int, lo),
        lo <= hi <= b[sel[k] + 1],
    ensures
        owns(nb, k, lo - b[sel[k] as int] + nb[k]),
        hi - b[sel[k] as int] + nb[k] <= nb[k + 1],
{
    let o = sel[k] as int;
    lemma_sum_prefix_step(lens, o);
    lemma_sum_prefix_step(pick(lens, sel), k);
    if k < sel.len() - 1 {
        assert(sel[k] < sel[k + 1]);
        assert(o < lens.len() - 1);
    }
}

/// A copy of a list of names.
fn copy_names(v: &Vec<String>) -> (r: Vec<String>)
    ensures
        views_of(r@) == views_of(v@),
{
    let mut r: Vec<String> = Vec::new();
    let mut i: usize = 0;
    while i < v.len()
        invariant
            0 <= i <= v@.len(),
            views_of(r@) == views_of(v@).subrange(0, i as int),
        decreases v@.len() - i,
    {
        let ghost before = r@;
        r.push(v[i].clone());
        assert(views_of(r@) =~= views_of(before).push(v@[i as int]@));
        i = i + 1;
        assert(views_of(r@) =~= views_of(v@).subrange(0, i as int));
    }
    assert(views_of(v@).subrange(0, v@.len() as int) =~= views_of(v@));
    r
}

/// A copy of a list of segments.
fn copy_segments(v: &Vec<AlignmentSegment>) -> (r: Vec<AlignmentSegment>)
    ensures
        r@ == v@,
{
    let mut r: Vec<AlignmentSegment> = Vec::new();
    let mut i: usize = 0;
    while i < v.len()
        invariant
            0 <= i <= v@.len(),
            r@ == v@.subrange(0, i as int),
        decreases v@.len() - i,
    {
        r.push(v[i]);
        i = i + 1;
        assert(r@ =~= v@.subrange(0, i as int));
    }
    assert(v@.subrange(0, v@.len() as int) =~= v@);
    r
}

/// The names and lengths at the selected indices, and for every old index
/// its slot in the selection.
fn select_sequences(names: &Vec<String>, lens: &Vec<i64>, sel: &Vec<usize>) -> (r: (
    Vec<String>,
    Vec<i64>,
    Vec<Option<usize>>,
))
    requires
        names@.len() == lens@.len(),
        increasing(sel@, names@.len() as int),
    ensures
        views_of(r.0@) == pick(views_of(names@), sel@),
        r.1@ == pick(lens@, sel@),
        r.2@.len() == names@.len(),
        forall|o: int|
            0 <= o < names@.len() ==> match #[trigger] r.2@[o] {
                Some(k) => slot(sel@, o) == Some(k as int),
                None => slot(sel@, o) is None,
            },
{
    let n = names.len();
    let mut slots: Vec<Option<usize>> = Vec::new();
    let mut i: usize = 0;
    while i < n
        invariant
            0 <= i <= n,
            slots@.len() == i,
            forall|o: int| 0 <= o < i ==> slots@[o] is None,
        decreases n - i,
    {
        slots.push(None);
        i = i + 1;
    }
    let mut new_names: Vec<String> = Vec::new();
    let mut new_lens: Vec<i64> = Vec::new();
    let mut k: usize = 0;
    while k < sel.len()
        invariant
            n == names@.len(),
            names@.len() == lens@.len(),
            increasing(sel@, n as int),
            0 <= k <= sel@.len(),
            slots@.len() == n,
            views_of(new_names@) == pick(views_of(names@), sel@).subrange(0, k as int),
            new_lens@ == pick(lens@, sel@).subrange(0, k as int),
            forall|o: int|
                0 <= o < n ==> match #[trigger] slots@[o] {
                    Some(j) => j < k && sel@[j as int] == o,
                    None => forall|j: int| 0 <= j < k ==> sel@[j] != o,
                },
        decreases sel@.len() - k,
    {
        let o = sel[k];
        let ghost before = new_names@;
        new_names.push(names[o].clone());
        assert(views_of(new_names@) =~= views_of(before).push(names@[o as int]@));
        new_lens.push(lens[o]);
        slots.set(o, Some(k));
        k = k + 1;
        assert(views_of(new_names@) =~= pick(views_of(names@), sel@).subrange(0, k as int));
        assert(new_lens@ =~= pick(lens@, sel@).subrange(0, k as int));
        assert forall|q: int| 0 <= q < n implies match #[trigger] slots@[q] {
            Some(j) => j < k && sel@[j as int] == q,
            None => forall|j: int| 0 <= j < k ==> sel@[j] != q,
        } by {
            if q != o as int {
                assert forall|j: int| 0 <= j < k && slots@[q] is None implies sel@[j] != q by {
                    if j == k - 1 {
                        assert(sel@[j] == o);
                    }
                }
            }
        }
    }
    assert(pick(views_of(names@), sel@).subrange(0, sel@.len() as int) =~= pick(
        views_of(names@),
        sel@,
    ));
    assert(pick(lens@, sel@).subrange(0, sel@.len() as int) =~= pick(lens@, sel@));
    assert forall|o: int| 0 <= o < n implies match #[trigger] slots@[o] {
        Some(k) => slot(sel@, o) == Some(k as int),
        None => slot(sel@, o) is None,
    } by {
        match slots@[o] {
            Some(j) => {
                lemma_slot_of(sel@, n as int, j as int);
            },
            None => {},
        }
    }
    (new_names, new_lens, slots)
}

impl RustPlot {
    /// A copy of the plot with its own index.
    fn duplicate(&self) -> (r: RustPlot)
        requires
            self.wf(),
        ensures
            r.wf(),
            r@ == self@,
    {
        let segments = copy_segments(self.index.segments());
        RustPlot {
            query_sequences: copy_names(&self.query_sequences),
            target_sequences: copy_names(&self.target_sequences),
            query_lengths: copy_table(&self.query_lengths),
            target_lengths: copy_table(&self.target_lengths),
            query_genome_len: self.query_genome_len,
            target_genome_len: self.target_genome_len,
            query_boundaries: copy_table(&self.query_boundaries),
            target_boundaries: copy_table(&self.target_boundaries),
            index: SpatialIndex::build(segments),
        }
    }

    /// Derives a standalone plot holding only the sequences that the two
    /// filters keep: indices renumbered, offsets recomputed, and each
    /// segment whose owning sequences are both kept moved into the new
    /// coordinates. Filters that keep everything give a copy.
    pub fn with_filters(&self, query_filter: &SequenceFilter, target_filter: &SequenceFilter) -> (r:
        Result<RustPlot, FilterError>)
        requires
            self.wf(),
        ensures
            match r {
                Ok(p) => p.wf() && filtered_view(self@, *query_filter, *target_filter) == Ok::<
                    PlotView,
                    FilterError,
                >(p@),
                Err(e) => filtered_view(self@, *query_filter, *target_filter) == Err::<
                    PlotView,
                    FilterError,
                >(e),
            },
    {
        let qsel = query_filter.matching_indices(&self.query_sequences);
        let tsel = target_filter.matching_indices(&self.target_sequences);
        if qsel.len() == self.query_sequences.len() && tsel.len() == self.target_sequences.len() {
            return Ok(self.duplicate());
        }
        if (qsel.len() == 0 && self.query_sequences.len() > 0) || (tsel.len() == 0
            && self.target_sequences.len() > 0) {
            return Err(FilterError::NoMatch);
        }
        let ghost v = self@;
        let tn = self.target_sequences.len();
        assert(v.tnames.len() == tn);
        proof {
            lemma_retained_increasing(*query_filter, v.qnames, v.qnames.len() as int);
            lemma_retained_increasing(*target_filter, v.tnames, v.tnames.len() as int);
            lemma_offsets_table_ok(v.qlens, v.qb);
            lemma_offsets_table_ok(v.tlens, v.tb);
        }
        let (qnames, qlens, qslots) = select_sequences(
            &self.query_sequences,
            &self.query_lengths,
            &qsel,
        );
        let (tnames, tlens, tslots) = select_sequences(
            &self.target_sequences,
            &self.target_lengths,
            &tsel,
        );
        proof {
            let qn = v.qlens.len() as int;
            let tn = v.tlens.len() as int;
            if qsel@.len() > 0 {
                lemma_pick_sum(v.qlens, qsel@, qsel@.len() as int);
                lemma_sum_prefix_monotone(v.qlens, qsel@[qsel@.len() - 1] + 1, qn);
            }
            if tsel@.len() > 0 {
                lemma_pick_sum(v.tlens, tsel@, tsel@.len() as int);
                lemma_sum_prefix_monotone(v.tlens, tsel@[tsel@.len() - 1] + 1, tn);
            }
            assert(v.qb[qn] == sum_prefix(v.qlens, qn));
            assert(v.tb[tn] == sum_prefix(v.tlens, tn));
        }
        // The kept lengths sum to at most a whole genome's total, so both
        // tables fit and the `None` arms are unreachable.
        let nqb = match scaffold_offsets(&qlens) {
            Some(b) => b,
            None => return Err(FilterError::NoMatch),
        };
        let ntb = match scaffold_offsets(&tlens) {
            Some(b) => b,
            None => return Err(FilterError::NoMatch),
        };
        proof {
            lemma_offsets_table_ok(qlens@, nqb@);
            lemma_offsets_table_ok(tlens@, ntb@);
        }
        let segs = self.index.segments();
        let mut out: Vec<AlignmentSegment> = Vec::new();
        let mut i: usize = 0;
        while i < segs.len()
            invariant
                self.wf(),
                v == self@,
                segs@ == v.segments,
                0 <= i <= segs@.len(),
                table_ok(v.qb),
                table_ok(v.tb),
                increasing(qsel@, v.qlens.len() as int),
                increasing(tsel@, v.tlens.len() as int),
                qlens@ == pick(v.qlens, qsel@),
                tlens@ == pick(v.tlens, tsel@),
                table_of(qlens@, nqb@),
                table_of(tlens@, ntb@),
                qslots@.len() == v.qlens.len(),
                tslots@.len() == v.tlens.len(),
                forall|o: int|
                    0 <= o < v.qlens.len() ==> match #[trigger] qslots@[o] {
                        Some(k) => slot(qsel@, o) == Some(k as int),
                        None => slot(qsel@, o) is None,
                    },
                forall|o: int|
                    0 <= o < v.tlens.len() ==> match #[trigger] tslots@[o] {
                        Some(k) => slot(tsel@, o) == Some(k as int),
                        None => slot(tsel@, o) is None,
                    },
                out@ == remap_all(segs@.subrange(0, i as int), v.qb, v.tb, qsel@, tsel@, nqb@, ntb@),
                forall|j: int|
                    0 <= j < out@.len() ==> (#[trigger] out@[j]).oriented() && placed(
                        out@[j],
                        nqb@,
                        ntb@,
                    ),
            decreases segs@.len() - i,
        {
            let s = segs[i];
            assert(segs@.subrange(0, i + 1).drop_last() =~= segs@.subrange(0, i as int));
            assert(segs@[i as int] == s);
            assert(s.oriented() && placed(s, v.qb, v.tb));
            let ghost qw = choose|o: int| owns(v.qb, o, s.abeg as int) && s.aend <= v.qb[o + 1];
            let ghost tw = choose|o: int| owns(v.tb, o, s.b_low() as int) && s.b_high() <= v.tb[o + 1];
            assert(v.qb[0] <= v.qb[qw]);
            assert(v.tb[0] <= v.tb[tw]);
            let qo = find_sequence_index(&self.query_boundaries, s.abeg);
            let blow = if s.bbeg <= s.bend {
                s.bbeg
            } else {
                s.bend
            };
            let to = find_sequence_index(&self.target_boundaries, blow);
            proof {
                lemma_owner_unique(v.qb, qw, qo as int, s.abeg as int);
                lemma_owner_unique(v.tb, tw, to as int, s.b_low() as int);
                lemma_owner_unique(v.qb, owner_of(v.qb, s.abeg as int), qo as int, s.abeg as int);
                lemma_owner_unique(v.tb, owner_of(v.tb, s.b_low() as int), to as int, s.b_low() as int);
            }
            match (qslots[qo], tslots[to]) {
                (Some(qk), Some(tk)) => {
                    proof {
                        assert(qslots@[qo as int] == Some(qk));
                        assert(tslots@[to as int] == Some(tk));
                        let qk0 = choose|k: int| 0 <= k < qsel@.len() && qsel@[k] == qo;
                        let tk0 = choose|k: int| 0 <= k < tsel@.len() && tsel@[k] == to;
                        assert(qsel@[qk as int] == qo);
                        assert(tsel@[tk as int] == to);
                        lemma_shift_owned(
                            v.qlens,
                            v.qb,
                            qsel@,
                            nqb@,
                            qk as int,
                            s.abeg as int,
                            s.aend as int,
                        );
                        lemma_shift_owned(
                            v.tlens,
                            v.tb,
                            tsel@,
                            ntb@,
                            tk as int,
                            s.b_low() as int,
                            s.b_high() as int,
                        );
                    }
                    let qs = self.query_boundaries[qo];
                    let ns = nqb[qk];
                    let ts = self.target_boundaries[to];
                    let nts = ntb[tk];
                    let seg = AlignmentSegment {
                        abeg: ns + (s.abeg - qs),
                        aend: ns + (s.aend - qs),
                        bbeg: nts + (s.bbeg - ts),
                        bend: nts + (s.bend - ts),
                        reverse: s.reverse,
                    };
                    proof {
                        assert(owns(nqb@, qk as int, seg.abeg as int));
                        assert(owns(ntb@, tk as int, seg.b_low() as int));
                        assert(placed(seg, nqb@, ntb@));
                    }
                    out.push(seg);
                },
                _ => {},
            }
            i = i + 1;
        }
        assert(segs@.subrange(0, segs@.len() as int) =~= segs@);
        assert(nqb@ =~= new_table(qlens@));
        assert(ntb@ =~= new_table(tlens@));
        let query_genome_len = nqb[qlens.len()];
        let target_genome_len = ntb[tlens.len()];
        let index = SpatialIndex::build(out);
        let p = RustPlot {
            query_sequences: qnames,
            target_sequences: tnames,
            query_lengths: qlens,
            target_lengths: tlens,
            query_genome_len,
            target_genome_len,
            query_boundaries: nqb,
            target_boundaries: ntb,
            index,
        };
        assert(p@ =~= subset_view(v, qsel@, tsel@));
        Ok(p)
    }
}

} // verus!
