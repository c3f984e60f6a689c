use alnview::filter::{RangeError, SequenceFilter};

#[test]
fn test_empty_filter_matches_all() {
    let filter = SequenceFilter::new();
    assert!(filter.matches(0, "chr1"));
    assert!(filter.matches(5, "scaffold_10"));
}

#[test]
fn test_exact_name_match() {
    let filter = SequenceFilter::from_names("chr1,chr2");
    assert!(filter.matches(0, "chr1"));
    assert!(filter.matches(1, "chr2"));
    assert!(!filter.matches(2, "chr3"));
}

#[test]
fn test_prefix_match() {
    let filter = SequenceFilter::from_names("chr");
    assert!(filter.matches(0, "chr1"));
    assert!(filter.matches(1, "chr2_scaffold"));
    assert!(!filter.matches(2, "scaffold_1"));
}

#[test]
fn test_range_filter() {
    let filter = SequenceFilter::from_range("2-5").unwrap();
    assert!(!filter.matches(1, "any"));
    assert!(filter.matches(2, "any"));
    assert!(filter.matches(5, "any"));
    assert!(!filter.matches(6, "any"));
}

#[test]
fn test_combined_filters() {
    let mut filter = SequenceFilter::from_names("chr1");
    filter.range = Some((0, 10));

    assert!(filter.matches(0, "chr1"));
    assert!(filter.matches(5, "scaffold"));
    assert!(!filter.matches(15, "scaffold"));
}

#[test]
fn names_are_trimmed_and_empty_pieces_dropped() {
    let filter = SequenceFilter::from_names(" chr1 ,, \tchr2\n,");
    assert_eq!(filter.names, vec!["chr1".to_string(), "chr2".to_string()]);
    assert_eq!(filter.range, None);
    assert!(filter.matches(7, "chr2_b"));
    assert!(!filter.matches(7, " chr1"));
}

#[test]
fn blank_name_list_is_empty_filter() {
    let filter = SequenceFilter::from_names(" , ,");
    assert!(filter.is_empty());
    assert!(filter.matches(3, "anything"));
}

#[test]
fn range_with_spaces_and_plus() {
    let filter = SequenceFilter::from_range(" +3 - 4 ").unwrap();
    assert_eq!(filter.range, Some((3, 4)));
    assert!(filter.names.is_empty());
    assert!(!filter.is_empty());
}

#[test]
fn range_errors() {
    assert_eq!(SequenceFilter::from_range("5").unwrap_err(), RangeError::BadFormat);
    assert_eq!(SequenceFilter::from_range("1-2-3").unwrap_err(), RangeError::BadFormat);
    assert_eq!(SequenceFilter::from_range("a-3").unwrap_err(), RangeError::BadNumber);
    assert_eq!(SequenceFilter::from_range("-3").unwrap_err(), RangeError::BadNumber);
    assert_eq!(
        SequenceFilter::from_range("0-99999999999999999999999").unwrap_err(),
        RangeError::BadNumber
    );
    assert_eq!(SequenceFilter::from_range("5-2").unwrap_err(), RangeError::StartAfterEnd);
}

#[test]
fn range_reaches_largest_index() {
    let text = format!("0-{}", usize::MAX);
    let filter = SequenceFilter::from_range(&text).unwrap();
    assert_eq!(filter.range, Some((0, usize::MAX)));
    assert!(filter.matches(usize::MAX, "x"));
}

#[test]
fn matching_indices_in_order() {
    let filter = SequenceFilter::from_names("chr");
    let names = vec![
        "chr1".to_string(),
        "scaf".to_string(),
        "chrX".to_string(),
        "ch".to_string(),
    ];
    assert_eq!(filter.matching_indices(&names), vec![0, 2]);
    assert_eq!(SequenceFilter::new().matching_indices(&names), vec![0, 1, 2, 3]);
}
