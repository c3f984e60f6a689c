//! Laws relating the plot operations to one another.
use vstd::prelude::*;

use crate::filter::SequenceFilter;
use crate::offsets::{
    lemma_offsets_table_ok, lemma_owner_unique, lemma_sum_prefix_monotone, lengths_ok, owns,
    sum_prefix, table_ok,
};
use crate::plot::{lemma_stitched_placed, placed, table_of, PlotView, RustPlot};
use crate::segment::{stitch_result, AlignmentSegment, AlnRecord};
use crate::subset::{
    filtered_view, increasing, lemma_pick_sum, lemma_retained_increasing, lemma_shift_owned, lemma_slot_of, new_table,
    owner_of, pick, remap_all, remap_segment, slot, subset_view, FilterError,
};

verus! {

/// The selection of every index below `n`.
pub open spec fn every_index(n: int) -> Seq<usize> {
    Seq::new(n as nat, |i: int| i as usize)
}

/// The scaffold boundaries of a plot never decrease and end at the
/// genome's total length, on both genomes.
pub proof fn lemma_boundaries_sorted(p: RustPlot)
    requires
        p.wf(),
    ensures
        forall|i: int, j: int|
            0 <= i <= j < p.query_boundaries@.len() ==> p.query_boundaries@[i]
                <= p.query_boundaries@[j],
        forall|i: int, j: int|
            0 <= i <= j < p.target_boundaries@.len() ==> p.target_boundaries@[i]
                <= p.target_boundaries@[j],
        p.query_boundaries@.last() == p.query_genome_len,
        p.target_boundaries@.last() == p.target_genome_len,
{
    lemma_offsets_table_ok(p@.qlens, p@.qb);
    lemma_offsets_table_ok(p@.tlens, p@.tb);
}

/// Every segment of a plot runs forward on A, and its B slope is negative
/// exactly when it is a reverse alignment.
pub proof fn lemma_segments_oriented(p: RustPlot)
    requires
        p.wf(),
    ensures
        forall|k: int|
            0 <= k < p@.segments.len() ==> (#[trigger] p@.segments[k]).abeg <= p@.segments[k].aend
                && (p@.segments[k].reverse <==> p@.segments[k].bbeg > p@.segments[k].bend),
{
    assert forall|k: int| 0 <= k < p@.segments.len() implies (#[trigger] p@.segments[k]).oriented() by {
    }
}

/// A filter that accepts every sequence keeps every index.
pub proof fn lemma_retained_all(f: SequenceFilter, names: Seq<Seq<char>>, n: int)
    requires
        0 <= n <= names.len() <= usize::MAX,
        forall|i: int| 0 <= i < n ==> f.accepts(i, #[trigger] names[i]),
    ensures
        f.retained_upto(names, n) == every_index(n),
    decreases n,
{
    if n > 0 {
        lemma_retained_all(f, names, n - 1);
        assert(f.accepts(n - 1, names[n - 1]));
        assert(f.retained_upto(names, n) =~= every_index(n));
    }
}

proof fn lemma_every_index_increasing(n: int)
    requires
        0 <= n <= usize::MAX + 1,
    ensures
        increasing(every_index(n), n),
{
}

/// With every index kept, a placed segment maps to itself.
proof fn lemma_remap_identity_one(v: PlotView, s: AlignmentSegment)
    requires
        v.wf(),
        v.qlens.len() <= usize::MAX,
        v.tlens.len() <= usize::MAX,
        placed(s, v.qb, v.tb),
    ensures
        remap_segment(
            s,
            v.qb,
            v.tb,
            every_index(v.qlens.len() as int),
            every_index(v.tlens.len() as int),
            v.qb,
            v.tb,
        ) == Some(s),
{
    let qn = v.qlens.len() as int;
    let tn = v.tlens.len() as int;
    let qo = owner_of(v.qb, s.abeg as int);
    let to = owner_of(v.tb, s.b_low() as int);
    let qw = choose|o: int| owns(v.qb, o, s.abeg as int) && s.aend <= v.qb[o + 1];
    let tw = choose|o: int| owns(v.tb, o, s.b_low() as int) && s.b_high() <= v.tb[o + 1];
    assert(owns(v.qb, qo, s.abeg as int));
    assert(owns(v.tb, to, s.b_low() as int));
    lemma_every_index_increasing(qn);
    lemma_every_index_increasing(tn);
    assert(every_index(qn)[qo] == qo as usize);
    assert(every_index(tn)[to] == to as usize);
    lemma_slot_of(every_index(qn), qn, qo);
    lemma_slot_of(every_index(tn), tn, to);
}

proof fn lemma_remap_identity_all(v: PlotView, segs: Seq<AlignmentSegment>)
    requires
        v.wf(),
        v.qlens.len() <= usize::MAX,
        v.tlens.len() <= usize::MAX,
        forall|k: int| 0 <= k < segs.len() ==> placed(#[trigger] segs[k], v.qb, v.tb),
    ensures
        remap_all(
            segs,
            v.qb,
            v.tb,
            every_index(v.qlens.len() as int),
            every_index(v.tlens.len() as int),
            v.qb,
            v.tb,
        ) == segs,
    decreases segs.len(),
{
    if segs.len() > 0 {
        let prev = segs.drop_last();
        assert forall|k: int| 0 <= k < prev.len() implies placed(#[trigger] prev[k], v.qb, v.tb) by {
            assert(prev[k] == segs[k]);
        }
        lemma_remap_identity_all(v, prev);
        lemma_remap_identity_one(v, segs.last());
        assert(prev.push(segs.last()) =~= segs);
    }
}

/// Restricting a plot to all of its sequences reproduces the plot: the
/// shortcut taken for filters that keep everything agrees with the
/// general derivation.
pub proof fn lemma_subset_everything(v: PlotView)
    requires
        v.wf(),
        v.qlens.len() <= usize::MAX,
        v.tlens.len() <= usize::MAX,
    ensures
        subset_view(v, every_index(v.qlens.len() as int), every_index(v.tlens.len() as int)) == v,
{
    let qs = every_index(v.qlens.len() as int);
    let ts = every_index(v.tlens.len() as int);
    assert(pick(v.qlens, qs) =~= v.qlens);
    assert(pick(v.tlens, ts) =~= v.tlens);
    assert(pick(v.qnames, qs) =~= v.qnames);
    assert(pick(v.tnames, ts) =~= v.tnames);
    assert(new_table(v.qlens) =~= v.qb);
    assert(new_table(v.tlens) =~= v.tb);
    lemma_remap_identity_all(v, v.segments);
}

/// Filters that accept every sequence of both genomes give back the same
/// plot: same names, lengths, totals and segments.
pub proof fn lemma_filter_everything(v: PlotView, qf: SequenceFilter, tf: SequenceFilter)
    requires
        v.wf(),
        v.qnames.len() <= usize::MAX,
        v.tnames.len() <= usize::MAX,
        forall|i: int| 0 <= i < v.qnames.len() ==> qf.accepts(i, #[trigger] v.qnames[i]),
        forall|i: int| 0 <= i < v.tnames.len() ==> tf.accepts(i, #[trigger] v.tnames[i]),
    ensures
        filtered_view(v, qf, tf) == Ok::<PlotView, FilterError>(v),
{
    lemma_retained_all(qf, v.qnames, v.qnames.len() as int);
    lemma_retained_all(tf, v.tnames, v.tnames.len() as int);
}

/// The offset table of selected lengths fits in 64 bits.
proof fn lemma_new_table(lens: Seq<i64>, b: Seq<i64>, sel: Seq<usize>)
    requires
        lengths_ok(lens),
        table_of(lens, b),
        increasing(sel, lens.len() as int),
    ensures
        lengths_ok(pick(lens, sel)),
        table_of(pick(lens, sel), new_table(pick(lens, sel))),
{
    let p = pick(lens, sel);
    let m = sel.len() as int;
    let n = lens.len() as int;
    assert(lengths_ok(p));
    if m > 0 {
        lemma_pick_sum(lens, sel, m);
        lemma_sum_prefix_monotone(lens, sel[m - 1] + 1, n);
    }
    assert(b[n] == sum_prefix(lens, n));
    assert forall|i: int| 0 <= i <= m implies #[trigger] new_table(p)[i] == sum_prefix(p, i) by {
        lemma_sum_prefix_monotone(p, i, m);
    }
}

/// The position a slot names holds the index.
proof fn lemma_slot_some(sel: Seq<usize>, o: int)
    requires
        slot(sel, o) is Some,
    ensures
        0 <= slot(sel, o)->0 < sel.len(),
        sel[slot(sel, o)->0] == o,
{
}

/// A remapped segment is oriented and placed in the derived tables.
proof fn lemma_remap_one_placed(v: PlotView, q: Seq<usize>, t: Seq<usize>, s: AlignmentSegment)
    requires
        v.wf(),
        increasing(q, v.qlens.len() as int),
        increasing(t, v.tlens.len() as int),
        s.oriented(),
        placed(s, v.qb, v.tb),
    ensures
        ({
            let w = subset_view(v, q, t);
            remap_segment(s, v.qb, v.tb, q, t, w.qb, w.tb) matches Some(x) ==> x.oriented()
                && placed(x, w.qb, w.tb)
        }),
{
    let w = subset_view(v, q, t);
    lemma_new_table(v.qlens, v.qb, q);
    lemma_new_table(v.tlens, v.tb, t);
    lemma_offsets_table_ok(v.qlens, v.qb);
    lemma_offsets_table_ok(v.tlens, v.tb);
    let qo = owner_of(v.qb, s.abeg as int);
    let to = owner_of(v.tb, s.b_low() as int);
    let qw = choose|o: int| owns(v.qb, o, s.abeg as int) && s.aend <= v.qb[o + 1];
    let tw = choose|o: int| owns(v.tb, o, s.b_low() as int) && s.b_high() <= v.tb[o + 1];
    lemma_owner_unique(v.qb, qw, qo, s.abeg as int);
    lemma_owner_unique(v.tb, tw, to, s.b_low() as int);
    if slot(q, qo) is Some && slot(t, to) is Some {
        let k = slot(q, qo)->0;
        let j = slot(t, to)->0;
        lemma_slot_some(q, qo);
        lemma_slot_some(t, to);
        lemma_shift_owned(v.qlens, v.qb, q, w.qb, k, s.abeg as int, s.aend as int);
        lemma_shift_owned(v.tlens, v.tb, t, w.tb, j, s.b_low() as int, s.b_high() as int);
        let x = remap_segment(s, v.qb, v.tb, q, t, w.qb, w.tb)->0;
        assert(owns(w.qb, k, x.abeg as int));
        assert(owns(w.tb, j, x.b_low() as int));
    }
}

proof fn lemma_remap_all_placed(v: PlotView, q: Seq<usize>, t: Seq<usize>, segs: Seq<AlignmentSegment>)
    requires
        v.wf(),
        increasing(q, v.qlens.len() as int),
        increasing(t, v.tlens.len() as int),
        forall|k: int|
            0 <= k < segs.len() ==> (#[trigger] segs[k]).oriented() && placed(segs[k], v.qb, v.tb),
    ensures
        ({
            let w = subset_view(v, q, t);
            let r = remap_all(segs, v.qb, v.tb, q, t, w.qb, w.tb);
            forall|k: int| 0 <= k < r.len() ==> (#[trigger] r[k]).oriented() && placed(r[k], w.qb, w.tb)
        }),
    decreases segs.len(),
{
    if segs.len() > 0 {
        let prev = segs.drop_last();
        assert forall|k: int| 0 <= k < prev.len() implies (#[trigger] prev[k]).oriented() && placed(
            prev[k],
            v.qb,
            v.tb,
        ) by {
            assert(prev[k] == segs[k]);
        }
        lemma_remap_all_placed(v, q, t, prev);
        lemma_remap_one_placed(v, q, t, segs.last());
        let w = subset_view(v, q, t);
        let rp = remap_all(prev, v.qb, v.tb, q, t, w.qb, w.tb);
        let r = remap_all(segs, v.qb, v.tb, q, t, w.qb, w.tb);
        match remap_segment(segs.last(), v.qb, v.tb, q, t, w.qb, w.tb) {
            Some(x) => {
                assert(r == rp.push(x));
                assert forall|k: int| 0 <= k < r.len() implies (#[trigger] r[k]).oriented() && placed(
                    r[k],
                    w.qb,
                    w.tb,
                ) by {
                    if k < rp.len() {
                        assert(r[k] == rp[k]);
                    }
                }
            },
            None => {
                assert(r == rp);
            },
        }
    }
}

/// Restricting a well-formed plot gives a well-formed plot.
pub proof fn lemma_subset_wf(v: PlotView, q: Seq<usize>, t: Seq<usize>)
    requires
        v.wf(),
        increasing(q, v.qlens.len() as int),
        increasing(t, v.tlens.len() as int),
    ensures
        subset_view(v, q, t).wf(),
{
    let w = subset_view(v, q, t);
    lemma_new_table(v.qlens, v.qb, q);
    lemma_new_table(v.tlens, v.tb, t);
    lemma_remap_all_placed(v, q, t, v.segments);
    assert(w.qnames.len() == w.qlens.len());
    assert(w.tnames.len() == w.tlens.len());
    assert(table_of(w.qlens, w.qb));
    assert(table_of(w.tlens, w.tb));
}

proof fn lemma_compose_increasing(q1: Seq<usize>, q2: Seq<usize>, n: int)
    requires
        increasing(q1, n),
        increasing(q2, q1.len() as int),
    ensures
        increasing(pick(q1, q2), n),
{
    assert forall|i: int, j: int| 0 <= i < j < q2.len() implies pick(q1, q2)[i] < pick(q1, q2)[j] by {
        assert(q2[i] < q2[j]);
    }
}

/// Where an index lands after two selections is where it lands after
/// their composition.
proof fn lemma_slot_compose(q1: Seq<usize>, q2: Seq<usize>, n: int, o: int)
    requires
        increasing(q1, n),
        increasing(q2, q1.len() as int),
    ensures
        slot(q1, o) is None ==> slot(pick(q1, q2), o) is None,
        slot(q1, o) is Some ==> slot(pick(q1, q2), o) == slot(q2, slot(q1, o)->0),
{
    let q12 = pick(q1, q2);
    lemma_compose_increasing(q1, q2, n);
    if exists|k: int| 0 <= k < q12.len() && q12[k] == o {
        let k = choose|k: int| 0 <= k < q12.len() && q12[k] == o;
        assert(q1[q2[k] as int] == o);
        lemma_slot_some(q1, o);
        let k1 = slot(q1, o)->0;
        if q2[k] as int != k1 {
            if (q2[k] as int) < k1 {
                assert(q1[q2[k] as int] < q1[k1]);
            } else {
                assert(q1[k1] < q1[q2[k] as int]);
            }
        }
        lemma_slot_of(q2, q1.len() as int, k);
        lemma_slot_of(q12, n, k);
    } else if slot(q1, o) is Some {
        let k1 = slot(q1, o)->0;
        lemma_slot_some(q1, o);
        if slot(q2, k1) is Some {
            lemma_slot_some(q2, k1);
            let k2 = slot(q2, k1)->0;
            assert(q12[k2] == o);
        }
    }
}

/// Remapping a segment twice is remapping it once by the composed
/// selections.
proof fn lemma_remap_twice_one(
    v: PlotView,
    q1: Seq<usize>,
    t1: Seq<usize>,
    q2: Seq<usize>,
    t2: Seq<usize>,
    s: AlignmentSegment,
)
    requires
        v.wf(),
        increasing(q1, v.qlens.len() as int),
        increasing(t1, v.tlens.len() as int),
        increasing(q2, q1.len() as int),
        increasing(t2, t1.len() as int),
        s.oriented(),
        placed(s, v.qb, v.tb),
    ensures
        ({
            let v1 = subset_view(v, q1, t1);
            let v2 = subset_view(v1, q2, t2);
            match remap_segment(s, v.qb, v.tb, q1, t1, v1.qb, v1.tb) {
                Some(s1) => remap_segment(s1, v1.qb, v1.tb, q2, t2, v2.qb, v2.tb) == remap_segment(
                    s,
                    v.qb,
                    v.tb,
                    pick(q1, q2),
                    pick(t1, t2),
                    v2.qb,
                    v2.tb,
                ),
                None => remap_segment(
                    s,
                    v.qb,
                    v.tb,
                    pick(q1, q2),
                    pick(t1, t2),
                    v2.qb,
                    v2.tb,
                ) is None,
            }
        }),
{
    let v1 = subset_view(v, q1, t1);
    let v2 = subset_view(v1, q2, t2);
    lemma_subset_wf(v, q1, t1);
    lemma_new_table(v.qlens, v.qb, q1);
    lemma_new_table(v.tlens, v.tb, t1);
    lemma_new_table(v1.qlens, v1.qb, q2);
    lemma_new_table(v1.tlens, v1.tb, t2);
    lemma_offsets_table_ok(v.qlens, v.qb);
    lemma_offsets_table_ok(v.tlens, v.tb);
    lemma_offsets_table_ok(v1.qlens, v1.qb);
    lemma_offsets_table_ok(v1.tlens, v1.tb);
    let qo = owner_of(v.qb, s.abeg as int);
    let to = owner_of(v.tb, s.b_low() as int);
    let qw = choose|o: int| owns(v.qb, o, s.abeg as int) && s.aend <= v.qb[o + 1];
    let tw = choose|o: int| owns(v.tb, o, s.b_low() as int) && s.b_high() <= v.tb[o + 1];
    lemma_owner_unique(v.qb, qw, qo, s.abeg as int);
    lemma_owner_unique(v.tb, tw, to, s.b_low() as int);
    lemma_slot_compose(q1, q2, v.qlens.len() as int, qo);
    lemma_slot_compose(t1, t2, v.tlens.len() as int, to);
    if slot(q1, qo) is Some && slot(t1, to) is Some {
        let k1 = slot(q1, qo)->0;
        let j1 = slot(t1, to)->0;
        lemma_slot_some(q1, qo);
        lemma_slot_some(t1, to);
        lemma_shift_owned(v.qlens, v.qb, q1, v1.qb, k1, s.abeg as int, s.aend as int);
        lemma_shift_owned(v.tlens, v.tb, t1, v1.tb, j1, s.b_low() as int, s.b_high() as int);
        let s1 = remap_segment(s, v.qb, v.tb, q1, t1, v1.qb, v1.tb)->0;
        assert(owns(v1.qb, k1, s1.abeg as int));
        assert(owns(v1.tb, j1, s1.b_low() as int));
        lemma_owner_unique(v1.qb, owner_of(v1.qb, s1.abeg as int), k1, s1.abeg as int);
        lemma_owner_unique(v1.tb, owner_of(v1.tb, s1.b_low() as int), j1, s1.b_low() as int);
        if slot(q2, k1) is Some && slot(t2, j1) is Some {
            let k2 = slot(q2, k1)->0;
            let j2 = slot(t2, j1)->0;
            lemma_slot_some(q2, k1);
            lemma_slot_some(t2, j1);
            lemma_shift_owned(v1.qlens, v1.qb, q2, v2.qb, k2, s1.abeg as int, s1.aend as int);
            lemma_shift_owned(
                v1.tlens,
                v1.tb,
                t2,
                v2.tb,
                j2,
                s1.b_low() as int,
                s1.b_high() as int,
            );
        }
    }
}

proof fn lemma_remap_twice_all(
    v: PlotView,
    q1: Seq<usize>,
    t1: Seq<usize>,
    q2: Seq<usize>,
    t2: Seq<usize>,
    segs: Seq<AlignmentSegment>,
)
    requires
        v.wf(),
        increasing(q1, v.qlens.len() as int),
        increasing(t1, v.tlens.len() as int),
        increasing(q2, q1.len() as int),
        increasing(t2, t1.len() as int),
        forall|k: int|
            0 <= k < segs.len() ==> (#[trigger] segs[k]).oriented() && placed(segs[k], v.qb, v.tb),
    ensures
        ({
            let v1 = subset_view(v, q1, t1);
            let v2 = subset_view(v1, q2, t2);
            remap_all(remap_all(segs, v.qb, v.tb, q1, t1, v1.qb, v1.tb), v1.qb, v1.tb, q2, t2, v2.qb, v2.tb)
                == remap_all(segs, v.qb, v.tb, pick(q1, q2), pick(t1, t2), v2.qb, v2.tb)
        }),
    decreases segs.len(),
{
    if segs.len() > 0 {
        let v1 = subset_view(v, q1, t1);
        let v2 = subset_view(v1, q2, t2);
        let prev = segs.drop_last();
        assert forall|k: int| 0 <= k < prev.len() implies (#[trigger] prev[k]).oriented() && placed(
            prev[k],
            v.qb,
            v.tb,
        ) by {
            assert(prev[k] == segs[k]);
        }
        lemma_remap_twice_all(v, q1, t1, q2, t2, prev);
        lemma_remap_twice_one(v, q1, t1, q2, t2, segs.last());
        let r1p = remap_all(prev, v.qb, v.tb, q1, t1, v1.qb, v1.tb);
        match remap_segment(segs.last(), v.qb, v.tb, q1, t1, v1.qb, v1.tb) {
            Some(x) => {
                assert(r1p.push(x).drop_last() =~= r1p);
            },
            None => {},
        }
    }
}

/// Restricting a plot twice equals restricting it once to the sequences
/// kept both times, given by composing the two selections.
pub proof fn lemma_subset_twice(
    v: PlotView,
    q1: Seq<usize>,
    t1: Seq<usize>,
    q2: Seq<usize>,
    t2: Seq<usize>,
)
    requires
        v.wf(),
        increasing(q1, v.qlens.len() as int),
        increasing(t1, v.tlens.len() as int),
        increasing(q2, q1.len() as int),
        increasing(t2, t1.len() as int),
    ensures
        subset_view(subset_view(v, q1, t1), q2, t2) == subset_view(v, pick(q1, q2), pick(t1, t2)),
{
    let v1 = subset_view(v, q1, t1);
    assert(pick(pick(v.qlens, q1), q2) =~= pick(v.qlens, pick(q1, q2)));
    assert(pick(pick(v.tlens, t1), t2) =~= pick(v.tlens, pick(t1, t2)));
    assert(pick(pick(v.qnames, q1), q2) =~= pick(v.qnames, pick(q1, q2)));
    assert(pick(pick(v.tnames, t1), t2) =~= pick(v.tnames, pick(t1, t2)));
    lemma_remap_twice_all(v, q1, t1, q2, t2, v.segments);
}

proof fn lemma_selection_lower(sel: Seq<usize>, n: int, i: int)
    requires
        increasing(sel, n),
        0 <= i < sel.len(),
    ensures
        sel[i] >= i,
    decreases i,
{
    if i > 0 {
        lemma_selection_lower(sel, n, i - 1);
        assert(sel[i - 1] < sel[i]);
    }
}

proof fn lemma_selection_upper(sel: Seq<usize>, n: int, i: int)
    requires
        increasing(sel, n),
        0 <= i < sel.len(),
    ensures
        sel[i] <= n - (sel.len() - i),
    decreases sel.len() - i,
{
    if i < sel.len() - 1 {
        lemma_selection_upper(sel, n, i + 1);
        assert(sel[i] < sel[i + 1]);
    }
}

/// An increasing selection of `n` indices below `n` selects them all.
proof fn lemma_full_selection(sel: Seq<usize>, n: int)
    requires
        increasing(sel, n),
        sel.len() == n,
    ensures
        sel == every_index(n),
{
    assert forall|i: int| 0 <= i < n implies sel[i] == every_index(n)[i] by {
        lemma_selection_lower(sel, n, i);
        lemma_selection_upper(sel, n, i);
    }
    assert(sel =~= every_index(n));
}

/// A successful filtering is the restriction to what the filters keep.
pub proof fn lemma_filtered_is_subset(v: PlotView, qf: SequenceFilter, tf: SequenceFilter)
    requires
        v.wf(),
        v.qnames.len() <= usize::MAX,
        v.tnames.len() <= usize::MAX,
        filtered_view(v, qf, tf) is Ok,
    ensures
        filtered_view(v, qf, tf) == Ok::<PlotView, FilterError>(
            subset_view(v, qf.retained(v.qnames), tf.retained(v.tnames)),
        ),
        increasing(qf.retained(v.qnames), v.qnames.len() as int),
        increasing(tf.retained(v.tnames), v.tnames.len() as int),
{
    let qsel = qf.retained(v.qnames);
    let tsel = tf.retained(v.tnames);
    lemma_retained_increasing(qf, v.qnames, v.qnames.len() as int);
    lemma_retained_increasing(tf, v.tnames, v.tnames.len() as int);
    if qsel.len() == v.qnames.len() && tsel.len() == v.tnames.len() {
        lemma_full_selection(qsel, v.qnames.len() as int);
        lemma_full_selection(tsel, v.tnames.len() as int);
        lemma_subset_everything(v);
    }
}

/// Filtering a filtered plot gives the unfiltered plot restricted once to
/// the sequences that both filterings keep: the kept names, lengths,
/// offset tables and segments all agree.
pub proof fn lemma_filter_twice(
    v: PlotView,
    qf1: SequenceFilter,
    tf1: SequenceFilter,
    qf2: SequenceFilter,
    tf2: SequenceFilter,
)
    requires
        v.wf(),
        v.qnames.len() <= usize::MAX,
        v.tnames.len() <= usize::MAX,
        filtered_view(v, qf1, tf1) is Ok,
        filtered_view(filtered_view(v, qf1, tf1)->Ok_0, qf2, tf2) is Ok,
    ensures
        ({
            let v1 = filtered_view(v, qf1, tf1)->Ok_0;
            filtered_view(v1, qf2, tf2) == Ok::<PlotView, FilterError>(
                subset_view(
                    v,
                    pick(qf1.retained(v.qnames), qf2.retained(v1.qnames)),
                    pick(tf1.retained(v.tnames), tf2.retained(v1.tnames)),
                ),
            )
        }),
{
    let q1 = qf1.retained(v.qnames);
    let t1 = tf1.retained(v.tnames);
    lemma_filtered_is_subset(v, qf1, tf1);
    let v1 = subset_view(v, q1, t1);
    lemma_subset_wf(v, q1, t1);
    lemma_retained_increasing(qf1, v.qnames, v.qnames.len() as int);
    lemma_retained_increasing(tf1, v.tnames, v.tnames.len() as int);
    assert(v1.qnames.len() == q1.len());
    assert(v1.tnames.len() == t1.len());
    lemma_filtered_is_subset(v1, qf2, tf2);
    lemma_subset_twice(v, q1, t1, qf2.retained(v1.qnames), tf2.retained(v1.tnames));
}

/// Stitching any record against well-formed offset tables, when it
/// succeeds, gives a segment that runs forward on A and whose B slope is
/// negative exactly when it is a reverse alignment (a reverse record of
/// zero extent on B counts as forward).
pub proof fn lemma_stitch_oriented(r: AlnRecord, qb: Seq<i64>, tb: Seq<i64>)
    requires
        table_ok(qb),
        table_ok(tb),
        stitch_result(r, qb, tb) is Ok,
    ensures
        stitch_result(r, qb, tb)->Ok_0.abeg <= stitch_result(r, qb, tb)->Ok_0.aend,
        stitch_result(r, qb, tb)->Ok_0.reverse <==> stitch_result(r, qb, tb)->Ok_0.bbeg
            > stitch_result(r, qb, tb)->Ok_0.bend,
{
    lemma_stitched_placed(r, qb, tb);
}

/// Filtering twice gives the same result as filtering the unfiltered plot
/// once with filters that keep exactly the sequences both filterings keep.
pub proof fn lemma_filter_twice_as_once(
    v: PlotView,
    qf1: SequenceFilter,
    tf1: SequenceFilter,
    qf2: SequenceFilter,
    tf2: SequenceFilter,
    qf3: SequenceFilter,
    tf3: SequenceFilter,
)
    requires
        v.wf(),
        v.qnames.len() <= usize::MAX,
        v.tnames.len() <= usize::MAX,
        filtered_view(v, qf1, tf1) is Ok,
        filtered_view(filtered_view(v, qf1, tf1)->Ok_0, qf2, tf2) is Ok,
        qf3.retained(v.qnames) == pick(
            qf1.retained(v.qnames),
            qf2.retained(filtered_view(v, qf1, tf1)->Ok_0.qnames),
        ),
        tf3.retained(v.tnames) == pick(
            tf1.retained(v.tnames),
            tf2.retained(filtered_view(v, qf1, tf1)->Ok_0.tnames),
        ),
    ensures
        filtered_view(v, qf3, tf3) == filtered_view(filtered_view(v, qf1, tf1)->Ok_0, qf2, tf2),
{
    let q1 = qf1.retained(v.qnames);
    let t1 = tf1.retained(v.tnames);
    lemma_filtered_is_subset(v, qf1, tf1);
    let v1 = subset_view(v, q1, t1);
    let q2 = qf2.retained(v1.qnames);
    let t2 = tf2.retained(v1.tnames);
    lemma_filter_twice(v, qf1, tf1, qf2, tf2);
    lemma_subset_wf(v, q1, t1);
    lemma_retained_increasing(qf1, v.qnames, v.qnames.len() as int);
    lemma_retained_increasing(tf1, v.tnames, v.tnames.len() as int);
    assert(v1.qnames.len() == q1.len());
    assert(v1.tnames.len() == t1.len());
    lemma_filtered_is_subset(v1, qf2, tf2);
    let q12 = pick(q1, q2);
    let t12 = pick(t1, t2);
    lemma_compose_increasing(q1, q2, v.qnames.len() as int);
    lemma_compose_increasing(t1, t2, v.tnames.len() as int);
    if q12.len() == v.qnames.len() && t12.len() == v.tnames.len() {
        lemma_full_selection(q12, v.qnames.len() as int);
        lemma_full_selection(t12, v.tnames.len() as int);
        lemma_subset_everything(v);
    }
}

} // verus!
