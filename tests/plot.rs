use alnview::filter::SequenceFilter;
use alnview::offsets::{find_sequence_index, scaffold_offsets};
use alnview::plot::{BuildError, RustPlot};
use alnview::segment::{stitch_record, AlignmentSegment, AlnRecord, RecordError};
use alnview::subset::FilterError;

fn rec(q: i64, t: i64, qs: i64, qe: i64, ts: i64, te: i64, reverse: bool) -> AlnRecord {
    AlnRecord {
        query_id: q,
        target_id: t,
        query_name: String::new(),
        target_name: String::new(),
        query_len: 0,
        target_len: 0,
        query_start: qs,
        query_end: qe,
        target_start: ts,
        target_end: te,
        reverse: if reverse { 1 } else { 0 },
        diffs: 0,
    }
}

fn seqs(entries: &[(&str, i64)]) -> Vec<(String, Option<i64>)> {
    entries.iter().map(|(n, l)| (n.to_string(), Some(*l))).collect()
}

fn seg(abeg: i64, aend: i64, bbeg: i64, bend: i64, reverse: bool) -> AlignmentSegment {
    AlignmentSegment { abeg, aend, bbeg, bend, reverse }
}

fn build(records: Vec<AlnRecord>, q: &[(&str, i64)], t: &[(&str, i64)]) -> RustPlot {
    let (plot, skipped) = RustPlot::from_records(&records, &seqs(q), &seqs(t)).unwrap();
    assert_eq!(skipped, 0);
    plot
}

fn sorted(mut v: Vec<AlignmentSegment>) -> Vec<AlignmentSegment> {
    v.sort_by_key(|s| (s.abeg, s.aend, s.bbeg, s.bend, s.reverse));
    v
}

#[test]
fn forward_record_stitches() {
    let plot = build(vec![rec(0, 0, 100, 200, 300, 400, false)], &[("a", 1000)], &[("b", 1000)]);
    assert_eq!(plot.segments(), &vec![seg(100, 200, 300, 400, false)]);
    assert_eq!(plot.get_alen(), 1000);
    assert_eq!(plot.get_blen(), 1000);
}

#[test]
fn reverse_record_is_mirrored() {
    let plot = build(vec![rec(0, 0, 100, 200, 300, 400, true)], &[("a", 1000)], &[("b", 1000)]);
    assert_eq!(plot.segments(), &vec![seg(100, 200, 700, 600, true)]);
    let s = plot.segments()[0];
    assert!(s.bbeg > s.bend);
}

#[test]
fn second_sequence_is_offset() {
    let plot = build(
        vec![rec(0, 0, 5, 50, 0, 45, false), rec(1, 0, 10, 20, 100, 110, false)],
        &[("a1", 500), ("a2", 700)],
        &[("b", 1000)],
    );
    assert_eq!(plot.get_scaffold_boundaries(0), vec![0, 500, 1200]);
    assert_eq!(plot.segments()[1].abeg, 510);
    assert_eq!(plot.segments()[1].aend, 520);
}

#[test]
fn filter_keeps_second_sequence_only() {
    let plot = build(
        vec![rec(0, 0, 5, 50, 0, 45, false), rec(1, 0, 10, 20, 100, 110, false)],
        &[("a1", 500), ("a2", 700)],
        &[("b", 1000)],
    );
    let qf = SequenceFilter::from_range("1-1").unwrap();
    let sub = plot.with_filters(&qf, &SequenceFilter::new()).unwrap();
    assert_eq!(sub.query_sequences, vec!["a2".to_string()]);
    assert_eq!(sub.get_scaffold_boundaries(0), vec![0, 700]);
    assert_eq!(sub.get_alen(), 700);
    assert_eq!(sub.segments(), &vec![seg(10, 20, 100, 110, false)]);
}

#[test]
fn boundaries_are_sorted_and_end_at_total() {
    let plot = build(
        vec![rec(2, 1, 0, 30, 0, 10, false)],
        &[("a", 40), ("b", 0)],
        &[("x", 5)],
    );
    let qb = plot.get_scaffold_boundaries(0);
    assert_eq!(qb, vec![0, 40, 40, 70]);
    assert!(qb.windows(2).all(|w| w[0] <= w[1]));
    assert_eq!(*qb.last().unwrap(), plot.get_alen());
    let tb = plot.get_scaffold_boundaries(1);
    assert_eq!(tb, vec![0, 5, 15]);
    assert_eq!(*tb.last().unwrap(), plot.get_blen());
    assert!(plot.get_scaffold_boundaries(2).is_empty());
    assert_eq!(plot.get_nlays(), 1);
}

#[test]
fn placeholders_and_inferred_lengths() {
    let records = vec![rec(0, 2, 0, 120, 10, 20, false), rec(0, 0, 50, 300, 0, 7, true)];
    let (plot, skipped) = RustPlot::from_records(&records, &Vec::new(), &seqs(&[("t0", 4)])).unwrap();
    assert_eq!(skipped, 0);
    assert_eq!(plot.query_sequences, vec!["query_0".to_string()]);
    assert_eq!(
        plot.target_sequences,
        vec!["t0".to_string(), "target_1".to_string(), "target_2".to_string()]
    );
    assert_eq!(plot.query_lengths, vec![300]);
    assert_eq!(plot.target_lengths, vec![7, 0, 20]);
    assert_eq!(plot.get_scaffold_boundaries(1), vec![0, 7, 7, 27]);
    assert_eq!(plot.segments()[0], seg(0, 120, 17, 27, false));
    assert_eq!(plot.segments()[1], seg(50, 300, 7, 0, true));
}

#[test]
fn many_placeholders_get_decimal_names() {
    let records = vec![rec(12, 0, 0, 1, 0, 1, false)];
    let (plot, _) = RustPlot::from_records(&records, &Vec::new(), &Vec::new()).unwrap();
    assert_eq!(plot.query_sequences.len(), 13);
    assert_eq!(plot.query_sequences[12], "query_12");
    assert_eq!(plot.query_sequences[3], "query_3");
}

#[test]
fn malformed_records_are_skipped_and_counted() {
    let records = vec![
        rec(-1, 0, 0, 10, 0, 10, false),
        rec(0, 0, 20, 10, 0, 10, false),
        rec(0, 0, 0, 10, -5, 10, false),
        rec(0, 0, 1, 2, 3, 4, false),
    ];
    let (plot, skipped) = RustPlot::from_records(&records, &Vec::new(), &Vec::new()).unwrap();
    assert_eq!(skipped, 3);
    assert_eq!(plot.segments(), &vec![seg(1, 2, 3, 4, false)]);
}

#[test]
fn empty_input_gives_empty_plot() {
    let (plot, skipped) = RustPlot::from_records(&Vec::new(), &Vec::new(), &Vec::new()).unwrap();
    assert_eq!(skipped, 0);
    assert_eq!(plot.get_alen(), 0);
    assert_eq!(plot.get_blen(), 0);
    assert_eq!(plot.get_scaffold_boundaries(0), vec![0]);
    assert!(plot.query_segments_in_region(0, 0, 0, 10, 10).is_empty());
}

#[test]
fn total_length_overflow_is_reported() {
    let q = seqs(&[("a", i64::MAX), ("b", 1)]);
    let r = RustPlot::from_records(&Vec::new(), &q, &Vec::new());
    assert_eq!(r.err(), Some(BuildError::LengthOverflow));
}

#[test]
fn stitch_record_errors() {
    let qb = vec![0, 100];
    let tb = vec![0, 50, 80];
    assert_eq!(
        stitch_record(&rec(0, 0, 10, 5, 0, 1, false), &qb, &tb),
        Err(RecordError::InvalidRecord)
    );
    assert_eq!(
        stitch_record(&rec(1, 0, 0, 5, 0, 1, false), &qb, &tb),
        Err(RecordError::OutOfRange)
    );
    assert_eq!(
        stitch_record(&rec(0, 1, 0, 5, 0, 31, false), &qb, &tb),
        Err(RecordError::OutOfRange)
    );
    assert_eq!(
        stitch_record(&rec(0, 1, 0, 5, 10, 30, true), &qb, &tb),
        Ok(seg(0, 5, 70, 50, true))
    );
    assert_eq!(
        stitch_record(&rec(0, 1, 0, 5, 10, 10, true), &qb, &tb),
        Ok(seg(0, 5, 70, 70, false))
    );
}

#[test]
fn offsets_and_owner_lookup() {
    let b = scaffold_offsets(&vec![500, 0, 700]).unwrap();
    assert_eq!(b, vec![0, 500, 500, 1200]);
    assert_eq!(find_sequence_index(&b, 0), 0);
    assert_eq!(find_sequence_index(&b, 499), 0);
    assert_eq!(find_sequence_index(&b, 500), 2);
    assert_eq!(find_sequence_index(&b, 1200), 2);
    assert_eq!(scaffold_offsets(&vec![i64::MAX, 1]), None);
}

#[test]
fn region_query_finds_overlapping_boxes() {
    let plot = build(
        vec![
            rec(0, 0, 0, 100, 0, 100, false),
            rec(0, 0, 200, 300, 200, 300, true),
            rec(0, 0, 500, 600, 500, 600, false),
        ],
        &[("a", 1000)],
        &[("b", 1000)],
    );
    let hits = sorted(plot.query_segments_in_region(0, 90, 650, 150, 100));
    assert_eq!(hits, vec![seg(200, 300, 800, 700, true)]);
    let touching = sorted(plot.query_segments_in_region(0, 100, 100, 1, 1));
    assert_eq!(touching, vec![seg(0, 100, 0, 100, false)]);
    let all = plot.query_segments_in_region(0, 0, 0, 1000, 1000);
    assert_eq!(all.len(), 3);
    assert!(plot.query_segments_in_region(0, 0, 0, 0, 1000).is_empty());
    assert!(plot.query_segments_in_region(0, 0, 0, 1000, -5).is_empty());
    assert!(plot.query_segments_in_region(1, 0, 0, 1000, 1000).is_empty());
    assert!(plot.query_segments_in_region(0, 2000, 2000, 10, 10).is_empty());
    assert_eq!(plot.query_segments_in_region(0, 0, 0, i64::MAX, i64::MAX).len(), 3);
}

#[test]
fn region_query_has_no_false_negatives() {
    let mut records = Vec::new();
    for i in 0..40i64 {
        records.push(rec(i % 3, i % 2, i * 7, i * 7 + 30, i * 5, i * 5 + 11, i % 4 == 0));
    }
    let plot = build(records, &[("a", 400), ("b", 400), ("c", 400)], &[("x", 300), ("y", 300)]);
    let segs = plot.segments().clone();
    for (x, y, w, h) in [(0, 0, 50, 50), (300, 100, 400, 60), (810, 0, 5, 600), (1, 1, 1, 1)] {
        let got = plot.query_segments_in_region(0, x, y, w, h);
        for s in &segs {
            let overlaps = s.abeg.min(s.aend) <= x + w
                && s.abeg.max(s.aend) >= x
                && s.bbeg.min(s.bend) <= y + h
                && s.bbeg.max(s.bend) >= y;
            assert_eq!(got.contains(s), overlaps);
        }
    }
}

#[test]
fn full_filter_keeps_everything() {
    let plot = build(
        vec![rec(0, 1, 5, 50, 0, 45, true), rec(1, 0, 10, 20, 100, 110, false)],
        &[("a1", 500), ("a2", 700)],
        &[("b1", 1000), ("b2", 60)],
    );
    let all = SequenceFilter::from_names("a");
    let copy = plot.with_filters(&all, &SequenceFilter::new()).unwrap();
    assert_eq!(sorted(copy.segments().clone()), sorted(plot.segments().clone()));
    assert_eq!(copy.get_alen(), plot.get_alen());
    assert_eq!(copy.get_blen(), plot.get_blen());
    assert_eq!(copy.query_sequences, plot.query_sequences);
}

#[test]
fn filter_without_match_is_an_error() {
    let plot = build(vec![rec(0, 0, 1, 2, 3, 4, false)], &[("a", 10)], &[("b", 10)]);
    let none = SequenceFilter::from_names("zzz");
    assert_eq!(plot.with_filters(&none, &SequenceFilter::new()).err(), Some(FilterError::NoMatch));
    assert_eq!(plot.with_filters(&SequenceFilter::new(), &none).err(), Some(FilterError::NoMatch));
}

#[test]
fn filtering_twice_equals_filtering_once() {
    let plot = build(
        vec![
            rec(0, 0, 1, 9, 2, 8, false),
            rec(1, 1, 3, 40, 5, 30, true),
            rec(2, 2, 0, 70, 10, 12, false),
            rec(3, 1, 4, 5, 6, 7, true),
            rec(2, 0, 60, 80, 0, 50, false),
        ],
        &[("s0", 10), ("s1", 50), ("s2", 90), ("s3", 20)],
        &[("t0", 50), ("t1", 40), ("t2", 15)],
    );
    let first = plot
        .with_filters(&SequenceFilter::from_range("1-3").unwrap(), &SequenceFilter::from_names("t0,t1"))
        .unwrap();
    let second = first
        .with_filters(&SequenceFilter::from_names("s1,s2"), &SequenceFilter::from_range("0-0").unwrap())
        .unwrap();
    let once = plot
        .with_filters(&SequenceFilter::from_names("s1,s2"), &SequenceFilter::from_names("t0"))
        .unwrap();
    assert_eq!(second.query_sequences, once.query_sequences);
    assert_eq!(second.target_sequences, once.target_sequences);
    assert_eq!(second.get_scaffold_boundaries(0), once.get_scaffold_boundaries(0));
    assert_eq!(second.get_scaffold_boundaries(1), once.get_scaffold_boundaries(1));
    assert_eq!(sorted(second.segments().clone()), sorted(once.segments().clone()));
    assert_eq!(once.segments(), &vec![seg(110, 130, 0, 50, false)]);
}

#[test]
fn filtered_segments_keep_orientation() {
    let plot = build(
        vec![rec(1, 1, 0, 10, 0, 10, true), rec(1, 1, 20, 30, 5, 9, false)],
        &[("a", 100), ("b", 100)],
        &[("c", 100), ("d", 100)],
    );
    let sub = plot
        .with_filters(&SequenceFilter::from_names("b"), &SequenceFilter::from_names("d"))
        .unwrap();
    assert_eq!(sub.segments(), &vec![seg(0, 10, 100, 90, true), seg(20, 30, 5, 9, false)]);
    for s in sub.segments() {
        assert!(s.abeg <= s.aend);
        assert_eq!(s.reverse, s.bbeg > s.bend);
    }
}

#[test]
fn negative_or_missing_declared_length_counts_as_zero() {
    let q = vec![("a".to_string(), Some(-5)), ("b".to_string(), None), ("c".to_string(), Some(9))];
    let records = vec![rec(1, 0, 0, 4, 0, 3, false)];
    let (plot, _) = RustPlot::from_records(&records, &q, &Vec::new()).unwrap();
    assert_eq!(plot.query_lengths, vec![0, 4, 9]);
    assert_eq!(plot.get_scaffold_boundaries(0), vec![0, 0, 4, 13]);
    assert_eq!(plot.segments(), &vec![seg(0, 4, 0, 3, false)]);
    assert_eq!(plot.target_sequences, vec!["target_0".to_string()]);
}

#[test]
fn filter_on_genome_without_sequences_is_not_an_error() {
    let t = seqs(&[("t0", 30), ("t1", 20)]);
    let (plot, _) = RustPlot::from_records(&Vec::new(), &Vec::new(), &t).unwrap();
    let tf = SequenceFilter::from_names("t1");
    let sub = plot.with_filters(&SequenceFilter::new(), &tf).unwrap();
    assert!(sub.query_sequences.is_empty());
    assert_eq!(sub.target_sequences, vec!["t1".to_string()]);
    assert_eq!(sub.get_scaffold_boundaries(1), vec![0, 20]);
    assert_eq!(sub.get_alen(), 0);
    assert_eq!(sub.get_blen(), 20);
    let none = SequenceFilter::from_names("zzz");
    let sub2 = plot.with_filters(&none, &tf).unwrap();
    assert!(sub2.query_sequences.is_empty());
    assert_eq!(plot.with_filters(&SequenceFilter::new(), &none).err(), Some(FilterError::NoMatch));
}

#[test]
fn owner_lookup_on_any_sorted_table() {
    assert_eq!(find_sequence_index(&vec![5, 10], 7), 0);
    assert_eq!(find_sequence_index(&vec![5, 10, 10, 20], 10), 2);
    assert_eq!(find_sequence_index(&vec![5, 10, 20], 3), 1);
    assert_eq!(find_sequence_index(&vec![0, 5, 10], -1), 1);
    assert_eq!(find_sequence_index(&vec![0, 5, 10], 25), 1);
    assert_eq!(find_sequence_index(&vec![4], 9), 0);
    assert_eq!(find_sequence_index(&Vec::new(), 9), 0);
}
