use biometal_qc_tools::samples::extract_sample_name;
use biometal_qc_tools::fingerprint::MinimizerSet;
use biometal_qc_tools::quality::{QualityAnalyzer, QualityCounts};
use biometal_qc_tools::rrna::{rna_to_dna, RrnaDatabase};
use biometal_qc_tools::check_biometal_availability;

#[test]
fn minimizers_are_hashes_not_bases() {
    let seq = b"ACGTACGTTTGACCATGACAGT".to_vec();
    let fp = MinimizerSet::extract_minimizers(&seq, 5, 3);
    assert!(!fp.hashes.is_empty());
    let bytes: Vec<u64> = seq.iter().map(|&b| b as u64).collect();
    assert_ne!(fp.hashes, bytes);
    let again = MinimizerSet::extract_minimizers(&seq, 5, 3);
    assert_eq!(fp.hashes, again.hashes);
}

#[test]
fn minimizers_of_invalid_read_are_empty() {
    let seq = b"ACGTACGTXTGACCATGACAGT".to_vec();
    assert!(MinimizerSet::extract_minimizers(&seq, 5, 3).hashes.is_empty());
    let lower = b"acgtacgtacgt".to_vec();
    assert!(MinimizerSet::extract_minimizers(&lower, 3, 2).hashes.is_empty());
}

#[test]
fn minimizers_trivial_parameters() {
    let seq = b"ACGT".to_vec();
    assert!(MinimizerSet::extract_minimizers(&seq, 0, 3).hashes.is_empty());
    assert!(MinimizerSet::extract_minimizers(&seq, 3, 0).hashes.is_empty());
    assert!(MinimizerSet::extract_minimizers(&seq, 5, 3).hashes.is_empty());
}

#[test]
fn quality_counts_thresholds() {
    let analyzer = QualityAnalyzer::new(20, 50);
    assert_eq!(analyzer.min_quality, 20);
    let c = analyzer.quality_counts(b"!5?I4");
    assert_eq!(c, QualityCounts { total: 5, q30: 2, q20: 3 });
    let d = QualityAnalyzer::default();
    assert_eq!((d.min_quality, d.min_length), (20, 50));
}

#[test]
fn rna_becomes_dna() {
    assert_eq!(rna_to_dna(b"ACGUuNrYsKbx"), b"ACGTtAATGGGx".to_vec());
}

#[test]
fn empty_rrna_database() {
    let db = RrnaDatabase::new();
    assert!(db.minimizer_index.is_empty());
    assert!(db.sequence_names.is_empty());
    assert_eq!(db.total_sequences, 0);
}

#[test]
fn biometal_is_available() {
    assert!(check_biometal_availability());
}

#[test]
fn sample_names_from_report_files() {
    assert_eq!(extract_sample_name("S1_quality_stats.json"), Some("S1".to_string()));
    assert_eq!(extract_sample_name("S2_qc.json"), Some("S2".to_string()));
    assert_eq!(extract_sample_name("S3_contamination_report.json"), Some("S3".to_string()));
    assert_eq!(extract_sample_name("S4_vlp"), Some("S4".to_string()));
    assert_eq!(extract_sample_name("notes.txt"), Some("notes.txt".to_string()));
    assert_eq!(extract_sample_name(".json"), Some(String::new()));
}
