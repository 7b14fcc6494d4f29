use barcode_merge::collect::collect_counts;
use barcode_merge::collect::Extractor;
use barcode_merge::distance::endpoints_at_distance;
use barcode_merge::distance::min_distance;
use barcode_merge::reconcile::absorb;
use barcode_merge::reconcile::reconcile;
use barcode_merge::table::count_barcodes;
use barcode_merge::table::sort_barcodes;
use barcode_merge::table::sort_entries_ascending;
use barcode_merge::table::FreqTable;

fn table_of(entries: &[(&str, u64)]) -> FreqTable {
    let v: Vec<(String, u64)> = entries.iter().map(|(k, c)| (k.to_string(), *c)).collect();
    FreqTable::from_entries(v)
}

fn count_of(entries: &[(String, u64)], key: &str) -> Option<u64> {
    entries.iter().find(|(k, _)| k == key).map(|(_, c)| *c)
}

#[test]
fn scenario_candidate_merges_into_nearest() {
    let t = table_of(&[("AAA", 10), ("AAT", 1), ("GGG", 8)]);
    let mut rng = rand::thread_rng();
    let r = reconcile(t, 2, 1, &mut rng);
    let entries = r.into_entries();
    assert_eq!(entries.len(), 2);
    assert_eq!(count_of(&entries, "AAA"), Some(11));
    assert_eq!(count_of(&entries, "GGG"), Some(8));
    assert_eq!(count_of(&entries, "AAT"), None);
}

#[test]
fn scenario_distance_zero_leaves_table() {
    let t = table_of(&[("AAA", 10), ("AAT", 1), ("GGG", 8)]);
    let mut rng = rand::thread_rng();
    let r = reconcile(t, 2, 0, &mut rng);
    let entries = r.into_entries();
    assert_eq!(entries.len(), 3);
    assert_eq!(count_of(&entries, "AAA"), Some(10));
    assert_eq!(count_of(&entries, "AAT"), Some(1));
    assert_eq!(count_of(&entries, "GGG"), Some(8));
}

#[test]
fn scenario_all_counts_equal_no_endpoints() {
    let t = table_of(&[("AAA", 1), ("AAB", 1), ("AAC", 1)]);
    let mut rng = rand::thread_rng();
    let r = reconcile(t, 0, 1, &mut rng);
    let entries = r.into_entries();
    assert_eq!(entries.len(), 3);
    assert_eq!(count_of(&entries, "AAA"), Some(1));
    assert_eq!(count_of(&entries, "AAB"), Some(1));
    assert_eq!(count_of(&entries, "AAC"), Some(1));
}

#[test]
fn single_nearest_endpoint_always_wins() {
    // "AAT" is at distance 1 from "AAA" and 3 from "TTT": the tied set is
    // just "AAA", so the outcome is forced despite the random draw.
    let t = table_of(&[("AAA", 5), ("TTT", 5), ("AAT", 1)]);
    let mut rng = rand::thread_rng();
    let r = reconcile(t, 1, 1, &mut rng);
    let entries = r.into_entries();
    assert_eq!(entries.len(), 2);
    assert_eq!(count_of(&entries, "AAA"), Some(6));
    assert_eq!(count_of(&entries, "TTT"), Some(5));
}

#[test]
fn tie_break_confined_to_nearest() {
    // "AAT" is at distance 1 from both endpoints: one of them absorbs it,
    // and nothing else changes.
    let t = table_of(&[("AAA", 5), ("AAG", 5), ("AAT", 1)]);
    let mut rng = rand::thread_rng();
    let r = reconcile(t, 1, 1, &mut rng);
    let entries = r.into_entries();
    assert_eq!(entries.len(), 2);
    let a = count_of(&entries, "AAA").unwrap();
    let g = count_of(&entries, "AAG").unwrap();
    assert!(a + g == 11);
    assert!((a == 6 && g == 5) || (a == 5 && g == 6));
}

#[test]
fn threshold_boundary_strict_count_inclusive_distance() {
    // A count exactly equal to the threshold makes a candidate (strict >),
    // and a distance exactly equal to the threshold still merges (<=).
    let t = table_of(&[("AAA", 10), ("AAT", 2)]);
    let mut rng = rand::thread_rng();
    let r = reconcile(t, 2, 1, &mut rng);
    let entries = r.into_entries();
    assert_eq!(entries.len(), 1);
    assert_eq!(count_of(&entries, "AAA"), Some(12));
}

#[test]
fn conservation_over_reconcile() {
    let t = table_of(&[("ACGT", 9), ("ACGA", 2), ("ACTA", 1), ("TTTT", 7), ("TTTA", 3)]);
    let before = count_barcodes(&t);
    let mut rng = rand::thread_rng();
    let r = reconcile(t, 3, 1, &mut rng);
    let after = count_barcodes(&r);
    assert_eq!(before, 22);
    assert_eq!(after, 22);
}

#[test]
fn reconcile_empty_table() {
    let t = table_of(&[]);
    let mut rng = rand::thread_rng();
    let r = reconcile(t, 0, 1, &mut rng);
    assert_eq!(r.into_entries().len(), 0);
}

#[test]
fn absorb_moves_count() {
    let mut t = table_of(&[("AAA", 2), ("AAB", 1)]);
    let cand = "AAB".to_string();
    let target = "AAA".to_string();
    absorb(&mut t, &cand, &target);
    let entries = t.into_entries();
    assert_eq!(entries.len(), 1);
    assert_eq!(count_of(&entries, "AAA"), Some(3));
}

#[test]
fn count_barcodes_sums_counts() {
    let t = table_of(&[("AAA", 10), ("AAT", 1), ("GGG", 8)]);
    assert_eq!(count_barcodes(&t), 19);
    let empty = table_of(&[]);
    assert_eq!(count_barcodes(&empty), 0);
}

#[test]
fn sort_barcodes_orders_descending() {
    let mut v: Vec<(String, u64)> = vec![
        ("AAT".to_string(), 1),
        ("AAA".to_string(), 10),
        ("GGG".to_string(), 8),
    ];
    sort_barcodes(&mut v);
    assert_eq!(v.len(), 3);
    assert_eq!(v[0], ("AAA".to_string(), 10));
    assert_eq!(v[1], ("GGG".to_string(), 8));
    assert_eq!(v[2], ("AAT".to_string(), 1));
}

#[test]
fn sort_barcodes_is_stable() {
    // Entries of equal count keep their relative input order, and
    // duplicate entries are kept with their multiplicity.
    let mut v: Vec<(String, u64)> = vec![
        ("BBB".to_string(), 5),
        ("AAA".to_string(), 7),
        ("CCC".to_string(), 5),
        ("BBB".to_string(), 5),
    ];
    sort_barcodes(&mut v);
    assert_eq!(
        v,
        vec![
            ("AAA".to_string(), 7),
            ("BBB".to_string(), 5),
            ("CCC".to_string(), 5),
            ("BBB".to_string(), 5),
        ]
    );
}

#[test]
fn sort_entries_ascending_orders() {
    let v: Vec<(String, u64)> = vec![
        ("AAA".to_string(), 10),
        ("AAT".to_string(), 1),
        ("GGG".to_string(), 8),
    ];
    let s = sort_entries_ascending(v);
    assert_eq!(s[0], ("AAT".to_string(), 1));
    assert_eq!(s[1], ("GGG".to_string(), 8));
    assert_eq!(s[2], ("AAA".to_string(), 10));
}

#[test]
fn min_distance_is_levenshtein() {
    let c = "kitten".to_string();
    let endpoints = vec!["sitting".to_string(), "mitten".to_string()];
    assert_eq!(min_distance(&c, &endpoints), 1);
    let lone = vec!["sitting".to_string()];
    assert_eq!(min_distance(&c, &lone), 3);
}

#[test]
fn tie_set_holds_exactly_the_nearest() {
    let c = "AAT".to_string();
    let endpoints = vec!["AAA".to_string(), "AAG".to_string(), "TTT".to_string()];
    let d = min_distance(&c, &endpoints);
    assert_eq!(d, 1);
    let tied = endpoints_at_distance(&c, &endpoints, d);
    assert_eq!(tied, vec!["AAA".to_string(), "AAG".to_string()]);
}

#[test]
fn collect_counts_tallies_labels() {
    let ex = Extractor::new("^(A+)T", "${1}").unwrap();
    let lines: Vec<String> = vec![
        "AAT".to_string(),
        "AAATG".to_string(),
        "GGG".to_string(),
        "AATC".to_string(),
    ];
    let (table, unmatched, total, misses) = collect_counts(&ex, &lines);
    assert_eq!(total, 4);
    assert_eq!(unmatched, 1);
    assert_eq!(misses, vec!["GGG".to_string()]);
    let entries = table.into_entries();
    assert_eq!(entries.len(), 2);
    assert_eq!(count_of(&entries, "AA"), Some(2));
    assert_eq!(count_of(&entries, "AAA"), Some(1));
}

#[test]
fn collect_counts_counts_unmatched() {
    let ex = Extractor::new("CAT(..)", "${1}").unwrap();
    let lines: Vec<String> = vec!["DOG".to_string(), "BIRD".to_string()];
    let (table, unmatched, total, misses) = collect_counts(&ex, &lines);
    assert_eq!(total, 2);
    assert_eq!(unmatched, 2);
    assert_eq!(misses, lines);
    assert_eq!(table.into_entries().len(), 0);
}

#[test]
fn extractor_rejects_invalid_pattern() {
    assert!(Extractor::new("(", "${1}").is_err());
    assert!(Extractor::new("^(A+)T", "${1}").is_ok());
}

#[test]
fn collect_then_reconcile_conserves_observations() {
    let ex = Extractor::new("([ACGT]{3})", "${1}").unwrap();
    let mut lines: Vec<String> = Vec::new();
    for _ in 0..10 {
        lines.push("AAA".to_string());
    }
    lines.push("AAT".to_string());
    for _ in 0..8 {
        lines.push("GGG".to_string());
    }
    lines.push("xyz".to_string());
    let (table, unmatched, total, _) = collect_counts(&ex, &lines);
    assert_eq!(total, 20);
    assert_eq!(unmatched, 1);
    assert_eq!(count_barcodes(&table) + unmatched, total);
    let mut rng = rand::thread_rng();
    let r = reconcile(table, 2, 1, &mut rng);
    assert_eq!(count_barcodes(&r) + unmatched, total);
    let entries = r.into_entries();
    assert_eq!(count_of(&entries, "AAA"), Some(11));
    assert_eq!(count_of(&entries, "GGG"), Some(8));
}
