use biometal_qc_tools::clustering::find_duplicate_groups;
use biometal_qc_tools::dedup::{deduplicate, kept_indices, mark_duplicates};
use biometal_qc_tools::fingerprint::{IlluminaCoordinate, MinimizerSet, TilePosition};
use biometal_qc_tools::selection::{
    calculate_mean_quality, select_best_quality_read, select_representative, SelectionPolicy,
};
use biometal_qc_tools::similarity::{calculate_jaccard_similarity, Ratio};

fn set(v: &[u64]) -> MinimizerSet {
    MinimizerSet { hashes: v.to_vec() }
}

fn ratio(num: u64, den: u64) -> Ratio {
    Ratio::unit(num, den).unwrap()
}

#[test]
fn jaccard_exact_value() {
    let j = calculate_jaccard_similarity(&vec![1, 2, 3, 4], &vec![3, 4, 5, 6]);
    assert_eq!(j.shared, 2);
    assert_eq!(j.total, 6);
    assert!(j.at_least(&ratio(1, 3)));
    assert!(!j.at_least(&ratio(34, 100)));
}

#[test]
fn jaccard_repeated_hashes_count_once() {
    let j = calculate_jaccard_similarity(&vec![7, 7, 8], &vec![8, 8, 9, 7]);
    assert_eq!(j.shared, 2);
    assert_eq!(j.total, 3);
}

#[test]
fn jaccard_self_is_one() {
    let a = vec![10, 20, 30];
    let j = calculate_jaccard_similarity(&a, &a);
    assert_eq!(j.shared as u128, j.total);
    assert!(j.at_least(&ratio(1, 1)));
}

#[test]
fn jaccard_empty_is_zero() {
    let j = calculate_jaccard_similarity(&vec![], &vec![1, 2]);
    assert_eq!(j.shared, 0);
    assert_eq!(j.total, 0);
    assert!(!j.at_least(&ratio(1, 1000)));
    assert!(j.at_least(&ratio(0, 1)));
}

#[test]
fn threshold_outside_unit_range_is_rejected() {
    assert!(Ratio::unit(3, 2).is_none());
    assert!(Ratio::unit(1, 0).is_none());
    assert!(Ratio::distance(1, 0).is_none());
    assert_eq!(Ratio::distance(25, 2), Some(Ratio { num: 25, den: 2 }));
}

#[test]
fn anchor_only_clustering() {
    // A~B = 4/5, A~C = 3/6, B~C = 4/6; threshold 3/5.
    let fps = vec![set(&[1, 2, 3, 4]), set(&[1, 2, 3, 4, 5]), set(&[2, 3, 4, 5, 6])];
    let groups = find_duplicate_groups(&fps, &ratio(3, 5));
    assert_eq!(groups, vec![vec![0, 1]]);
    let out = deduplicate(&fps, &vec![vec![]; 3], &ratio(3, 5), SelectionPolicy::FirstOccurrence).unwrap();
    assert_eq!(out.kept, vec![0, 2]);
    assert_eq!(out.removed, vec![false, true, false]);
}

#[test]
fn best_quality_keeps_higher_mean() {
    let fps = vec![set(&[1, 2, 3]), set(&[1, 2, 3])];
    // '?' decodes to 30, 'D' to 35.
    let quals = vec![b"????".to_vec(), b"DDDD".to_vec()];
    let out = deduplicate(&fps, &quals, &ratio(4, 5), SelectionPolicy::BestQuality).unwrap();
    assert_eq!(out.groups, vec![vec![0, 1]]);
    assert_eq!(out.kept, vec![1]);
    assert_eq!(out.summary.duplicates_removed, 1);
}

#[test]
fn best_quality_tie_goes_to_lowest_index() {
    let quals = vec![b"DD".to_vec(), b"?I".to_vec(), b"DD".to_vec()];
    assert_eq!(select_best_quality_read(&vec![0, 1, 2], &quals), 0);
    assert_eq!(select_best_quality_read(&vec![2, 1], &quals), 1);
    assert_eq!(select_best_quality_read(&vec![1, 0], &quals), 0);
}

#[test]
fn first_occurrence_picks_anchor() {
    let quals = vec![b"!".to_vec(), b"I".to_vec()];
    assert_eq!(select_representative(SelectionPolicy::FirstOccurrence, &vec![0, 1], &quals), 0);
    assert_eq!(select_representative(SelectionPolicy::BestQuality, &vec![0, 1], &quals), 1);
}

#[test]
fn mean_quality_exact() {
    let m = calculate_mean_quality(&b"!+5".to_vec());
    assert_eq!((m.total, m.count), (30, 3));
    let e = calculate_mean_quality(&vec![]);
    assert_eq!((e.total, e.count), (0, 1));
}

#[test]
fn empty_fingerprints_never_group_even_at_zero_threshold() {
    let fps = vec![set(&[]), set(&[]), set(&[5, 6])];
    assert!(find_duplicate_groups(&fps, &ratio(0, 1)).is_empty());
    let out = deduplicate(&fps, &vec![vec![]; 3], &ratio(0, 1), SelectionPolicy::FirstOccurrence).unwrap();
    assert_eq!(out.kept, vec![0, 1, 2]);
}

#[test]
fn undecodable_quality_in_a_group_fails_best_quality() {
    let fps = vec![set(&[1]), set(&[1]), set(&[2])];
    let quals = vec![b"II".to_vec(), b" I".to_vec(), b"I".to_vec()];
    assert!(deduplicate(&fps, &quals, &ratio(1, 2), SelectionPolicy::BestQuality).is_none());
    let first = deduplicate(&fps, &quals, &ratio(1, 2), SelectionPolicy::FirstOccurrence).unwrap();
    assert_eq!(first.kept, vec![0, 2]);
}

#[test]
fn undecodable_quality_outside_groups_is_ignored() {
    let fps = vec![set(&[1]), set(&[1]), set(&[2])];
    let quals = vec![b"II".to_vec(), b"5I".to_vec(), b" ".to_vec()];
    let out = deduplicate(&fps, &quals, &ratio(1, 2), SelectionPolicy::BestQuality).unwrap();
    assert_eq!(out.kept, vec![0, 2]);
}

#[test]
fn empty_fingerprint_is_never_removed() {
    let fps = vec![set(&[]), set(&[]), set(&[5, 6])];
    let out = deduplicate(&fps, &vec![vec![]; 3], &ratio(1, 2), SelectionPolicy::FirstOccurrence).unwrap();
    assert!(out.groups.is_empty());
    assert_eq!(out.kept, vec![0, 1, 2]);
}

#[test]
fn identical_fingerprints_cluster_at_full_threshold() {
    let fps = vec![set(&[9, 8]), set(&[1]), set(&[8, 9, 9])];
    let groups = find_duplicate_groups(&fps, &ratio(1, 1));
    assert_eq!(groups, vec![vec![0, 2]]);
}

#[test]
fn groups_are_disjoint_and_large() {
    let fps = vec![
        set(&[1, 2]),
        set(&[3, 4]),
        set(&[1, 2]),
        set(&[3, 4]),
        set(&[1, 2, 3]),
        set(&[7]),
    ];
    let groups = find_duplicate_groups(&fps, &ratio(1, 2));
    assert_eq!(groups, vec![vec![0, 2, 4], vec![1, 3]]);
    let mut seen = vec![false; fps.len()];
    for g in &groups {
        assert!(g.len() >= 2);
        for &i in g {
            assert!(!seen[i]);
            seen[i] = true;
        }
    }
}

#[test]
fn rerun_on_survivors_removes_nothing() {
    let fps = vec![set(&[1, 2]), set(&[1, 2, 3]), set(&[2, 3, 4]), set(&[9]), set(&[9])];
    let t = ratio(1, 2);
    let out = deduplicate(&fps, &vec![vec![]; 5], &t, SelectionPolicy::FirstOccurrence).unwrap();
    let survivors: Vec<MinimizerSet> = out.kept.iter().map(|&i| fps[i].clone()).collect();
    let again = deduplicate(&survivors, &vec![vec![]; survivors.len()], &t, SelectionPolicy::FirstOccurrence).unwrap();
    assert!(again.groups.is_empty());
    assert_eq!(again.summary.duplicates_removed, 0);
}

#[test]
fn output_preserves_order() {
    let removed = vec![true, false, false, true, false];
    assert_eq!(kept_indices(&removed), vec![1, 2, 4]);
}

#[test]
fn mark_duplicates_spares_representatives() {
    let groups = vec![vec![0, 3], vec![1, 2, 4]];
    let quals = vec![vec![]; 5];
    let removed = mark_duplicates(5, &groups, SelectionPolicy::FirstOccurrence, &quals);
    assert_eq!(removed, vec![false, false, true, true, true]);
}

#[test]
fn summary_counts() {
    let fps = vec![set(&[1]), set(&[1]), set(&[1]), set(&[2]), set(&[2]), set(&[3])];
    let out = deduplicate(&fps, &vec![vec![]; 6], &ratio(1, 1), SelectionPolicy::FirstOccurrence).unwrap();
    assert_eq!(out.summary.total_reads, 6);
    assert_eq!(out.summary.duplicate_groups, 2);
    assert_eq!(out.summary.grouped_reads, 5);
    assert_eq!(out.summary.duplicates_removed, 3);
    assert_eq!(out.summary.unique_reads_kept, 3);
}

#[test]
fn empty_batch() {
    let fps: Vec<MinimizerSet> = vec![];
    let out = deduplicate(&fps, &vec![], &ratio(1, 2), SelectionPolicy::BestQuality).unwrap();
    assert!(out.groups.is_empty());
    assert!(out.kept.is_empty());
    assert_eq!(out.summary.total_reads, 0);
}

fn coord(flowcell: &str, lane: u32, tile: u32, x: u32, y: u32) -> TilePosition {
    TilePosition::Known(IlluminaCoordinate {
        instrument: "M1".to_string(),
        run_id: 1,
        flowcell: flowcell.to_string(),
        lane,
        tile,
        x,
        y,
        read: 1,
        filtered: false,
        control: 0,
        index: String::new(),
    })
}

#[test]
fn positional_cross_flowcell_never_clusters() {
    let fps = vec![coord("FC1", 1, 5, 100, 100), coord("FC2", 1, 5, 101, 100)];
    let groups = find_duplicate_groups(&fps, &Ratio::distance(10, 1).unwrap());
    assert!(groups.is_empty());
}

#[test]
fn positional_within_distance_clusters() {
    let fps = vec![
        coord("FC1", 1, 5, 100, 100),
        coord("FC1", 1, 5, 103, 104),
        coord("FC1", 1, 6, 100, 100),
        coord("FC1", 2, 5, 100, 100),
        coord("FC1", 1, 5, 110, 100),
    ];
    // 3-4-5 triangle: distance exactly 5 is within 5, not within 4.9.
    assert_eq!(find_duplicate_groups(&fps, &Ratio::distance(5, 1).unwrap()), vec![vec![0, 1]]);
    assert!(find_duplicate_groups(&fps, &Ratio::distance(49, 10).unwrap()).is_empty());
}

#[test]
fn unknown_positions_never_cluster() {
    let fps = vec![TilePosition::Unknown, TilePosition::Unknown, coord("FC1", 1, 1, 0, 0)];
    assert!(find_duplicate_groups(&fps, &Ratio::distance(1000, 1).unwrap()).is_empty());
}
