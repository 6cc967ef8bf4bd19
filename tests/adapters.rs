use biometal_qc_tools::trimming::{AdapterTrimmer, PolyGTally, PolyGTrimmer};

#[test]
fn test_adapter_trimmer_creation() {
    let trimmer = AdapterTrimmer::default();
    assert_eq!(trimmer.min_adapter_length, 8);
    assert_eq!(trimmer.min_overlap, 5);
    assert!(trimmer.trim_both_ends);
}

#[test]
fn test_adapter_trimmer_custom() {
    let trimmer = AdapterTrimmer::new(10, 3, false);
    assert_eq!(trimmer.min_adapter_length, 10);
    assert_eq!(trimmer.min_overlap, 3);
    assert!(!trimmer.trim_both_ends);
}

#[test]
fn trim_position_at_five_prime_end() {
    let trimmer = AdapterTrimmer::default();
    assert_eq!(trimmer.calculate_trim_position(2, 10, 100), Some((12, 0)));
}

#[test]
fn trim_position_at_three_prime_end() {
    let trimmer = AdapterTrimmer::default();
    assert_eq!(trimmer.calculate_trim_position(80, 17, 100), Some((0, 20)));
}

#[test]
fn trim_position_in_the_middle_is_none() {
    let trimmer = AdapterTrimmer::default();
    assert_eq!(trimmer.calculate_trim_position(40, 10, 100), None);
    let one_end = AdapterTrimmer::new(8, 5, false);
    assert_eq!(one_end.calculate_trim_position(80, 17, 100), None);
}

#[test]
fn polyg_tail_is_cut() {
    let trimmer = PolyGTrimmer::new(4, 1);
    let seq = b"ACGTAGGGGG".to_vec();
    let qual = b"ABCDEFGHIJ".to_vec();
    let (s, q, n) = trimmer.trim_polyg_tail(&seq, &qual);
    assert_eq!(s, b"ACGTA".to_vec());
    assert_eq!(q, b"ABCDE".to_vec());
    assert_eq!(n, 5);
}

#[test]
fn polyg_short_run_is_kept() {
    let trimmer = PolyGTrimmer::new(10, 1);
    let seq = b"ACGTAGGGgg".to_vec();
    let qual = b"ABCDEFGHIJ".to_vec();
    let (s, q, n) = trimmer.trim_polyg_tail(&seq, &qual);
    assert_eq!(s, seq);
    assert_eq!(q, qual);
    assert_eq!(n, 0);
}

#[test]
fn polyg_lowercase_counts() {
    let trimmer = PolyGTrimmer::new(3, 1);
    let (s, _, n) = trimmer.trim_polyg_tail(b"AAggg", b"IIIII");
    assert_eq!(s, b"AA".to_vec());
    assert_eq!(n, 3);
}

#[test]
fn polyg_inner_run_is_not_a_tail() {
    let trimmer = PolyGTrimmer::new(3, 1);
    let (s, q, n) = trimmer.trim_polyg_tail(b"GGGA", b"ABCD");
    assert_eq!(s, b"GGGA".to_vec());
    assert_eq!(q, b"ABCD".to_vec());
    assert_eq!(n, 0);
    let (s, _, n) = trimmer.trim_polyg_tail(b"AGGGGAGGG", b"IIIIIIIII");
    assert_eq!(s, b"AGGGGA".to_vec());
    assert_eq!(n, 3);
}

#[test]
fn polyg_all_g_read_is_emptied() {
    let trimmer = PolyGTrimmer::new(2, 1);
    let (s, q, n) = trimmer.trim_polyg_tail(b"GGgG", b"IIII");
    assert!(s.is_empty() && q.is_empty());
    assert_eq!(n, 4);
    assert!(!trimmer.keeps(s.len()));
    assert!(trimmer.keeps(1));
}

#[test]
fn polyg_tally_counts() {
    let mut tally = PolyGTally::new();
    tally.record(5, true);
    tally.record(0, true);
    tally.record(40, false);
    assert_eq!(
        tally,
        PolyGTally { total_reads: 3, reads_trimmed: 2, reads_discarded: 1, total_bases_removed: 45 }
    );
}
