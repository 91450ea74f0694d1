use region_means::region::{validate_regions, extract_intervals, Region, RegionParseError};

fn region(chrom: &str, start: u64, end: u64) -> Region {
    Region { chrom: chrom.to_string(), start, end }
}

#[test]
fn loads_three_column_records_in_file_order() {
    let regions = extract_intervals(b"chr1\t10\t20\nchr2\t0\t5\nchr1\t100\t250\n").unwrap();
    assert_eq!(
        regions,
        vec![region("chr1", 10, 20), region("chr2", 0, 5), region("chr1", 100, 250)]
    );
}

#[test]
fn ignores_columns_after_the_end() {
    let regions = extract_intervals(b"chr1\t10\t20\tpeak1\t0.5\t+\nchr2\t3\t9\tpeak2\t0.1\t-\n").unwrap();
    assert_eq!(regions, vec![region("chr1", 10, 20), region("chr2", 3, 9)]);
}

#[test]
fn skips_comment_lines() {
    let regions = extract_intervals(b"# a comment\nchr1\t5\t5000\n# another\nchr2\t3\t5005\n").unwrap();
    assert_eq!(regions, vec![region("chr1", 5, 5000), region("chr2", 3, 5005)]);
}

#[test]
fn keeps_duplicate_regions() {
    let regions = extract_intervals(b"chr1\t10\t20\nchr1\t10\t20\n").unwrap();
    assert_eq!(regions, vec![region("chr1", 10, 20), region("chr1", 10, 20)]);
}

#[test]
fn last_line_needs_no_newline() {
    let regions = extract_intervals(b"1\t5\t5000").unwrap();
    assert_eq!(regions, vec![region("1", 5, 5000)]);
}

#[test]
fn empty_file_is_an_empty_region_set() {
    assert_eq!(extract_intervals(b""), Ok(vec![]));
}

#[test]
fn line_with_two_fields_is_malformed() {
    let r = extract_intervals(b"chr1\t10\t20\nchr1\t30\n");
    assert!(matches!(r, Err(RegionParseError::Malformed { .. })));
}

#[test]
fn only_two_fields_is_malformed() {
    let r = extract_intervals(b"chr1\t10\n");
    assert!(matches!(r, Err(RegionParseError::Malformed { .. })));
}

#[test]
fn start_that_is_no_number_is_malformed() {
    let r = extract_intervals(b"chr1\tten\t20\n");
    assert!(matches!(r, Err(RegionParseError::Malformed { .. })));
}

#[test]
fn negative_start_is_malformed() {
    let r = extract_intervals(b"chr1\t-1\t20\n");
    assert!(matches!(r, Err(RegionParseError::Malformed { .. })));
}

#[test]
fn space_separated_line_is_malformed() {
    let r = extract_intervals(b"chr1 10 20\n");
    assert!(matches!(r, Err(RegionParseError::Malformed { .. })));
}

#[test]
fn malformed_message_is_not_empty() {
    match extract_intervals(b"chr1\t10\n") {
        Err(RegionParseError::Malformed { message }) => assert!(!message.is_empty()),
        other => panic!("expected a malformed file, got {:?}", other),
    }
}

#[test]
fn start_equal_to_end_is_rejected() {
    let r = extract_intervals(b"chr1\t10\t20\nchr1\t30\t30\nchr1\t5\t1\n");
    assert_eq!(r, Err(RegionParseError::EmptyInterval { record: 1 }));
}

#[test]
fn start_above_end_is_rejected() {
    let r = extract_intervals(b"chr1\t20\t10\n");
    assert_eq!(r, Err(RegionParseError::EmptyInterval { record: 0 }));
}

#[test]
fn empty_chromosome_is_rejected() {
    let r = extract_intervals(b"chr1\t10\t20\n\t30\t40\n");
    assert_eq!(r, Err(RegionParseError::EmptyChromosome { record: 1 }));
}

#[test]
fn empty_chromosome_comes_before_empty_interval() {
    let r = validate_regions(vec![region("", 5, 5)]);
    assert_eq!(r, Err(RegionParseError::EmptyChromosome { record: 0 }));
}

#[test]
fn first_bad_record_is_reported() {
    let r = validate_regions(vec![
        region("chr1", 1, 2),
        region("chr1", 9, 3),
        region("", 1, 2),
    ]);
    assert_eq!(r, Err(RegionParseError::EmptyInterval { record: 1 }));
}

#[test]
fn hands_valid_regions_back() {
    let regions = vec![region("chrX", 0, 1), region("chr2", 7, 8)];
    assert_eq!(validate_regions(regions.clone()), Ok(regions));
}

#[test]
fn accepts_no_regions() {
    assert_eq!(validate_regions(vec![]), Ok(vec![]));
}

#[test]
fn validity_of_a_region() {
    assert!(region("chr1", 0, 1).is_valid());
    assert!(!region("chr1", 1, 1).is_valid());
    assert!(!region("chr1", 2, 1).is_valid());
    assert!(!region("", 0, 1).is_valid());
}

#[test]
fn query_interval_is_the_region_s_own() {
    assert_eq!(region("chr1", 10, 20).query_interval(), Some((10, 20)));
    assert_eq!(region("chr1", 0, 4_294_967_295).query_interval(), Some((0, 4_294_967_295)));
    assert_eq!(
        region("chr1", 4_294_967_294, 4_294_967_295).query_interval(),
        Some((4_294_967_294, 4_294_967_295))
    );
}

#[test]
fn region_beyond_32_bits_has_no_query_interval() {
    assert_eq!(region("chr1", 4_294_967_306, 4_294_967_316).query_interval(), None);
    assert_eq!(region("chr1", 4_294_967_296, 4_294_967_301).query_interval(), None);
    assert_eq!(region("chr1", 10, 4_294_967_296).query_interval(), None);
    assert_eq!(region("chr1", 7, u64::MAX).query_interval(), None);
}

#[test]
fn region_beyond_32_bits_is_still_a_region() {
    let regions = extract_intervals(b"chr1\t4294967306\t4294967316\n").unwrap();
    assert_eq!(regions, vec![region("chr1", 4_294_967_306, 4_294_967_316)]);
    assert_eq!(regions[0].query_interval(), None);
}

#[test]
fn same_bytes_give_the_same_regions() {
    let bytes = b"chr3\t1\t2\tfirst\nchr1\t5\t9\tsecond\n";
    assert_eq!(extract_intervals(bytes), extract_intervals(bytes));
    assert_eq!(
        extract_intervals(bytes),
        Ok(vec![region("chr3", 1, 2), region("chr1", 5, 9)])
    );
}

#[test]
fn rows_of_differing_width_are_malformed() {
    let r = extract_intervals(b"chr3\t1\t2\nchr1\t5\t9\tname\n");
    assert!(matches!(r, Err(RegionParseError::Malformed { .. })));
}
