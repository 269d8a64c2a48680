use gitleaks_dedup::finding::Finding;
use gitleaks_dedup::partition::{partition_findings, select_group, PartitionResult};
use gitleaks_dedup::render::{render, sorted_fingerprints, RenderMode, Rendered};

fn finding(secret: &str, rule_id: &str, fingerprint: &str) -> Finding {
    Finding {
        description: "hard-coded credential".to_string(),
        start_line: 3,
        end_line: 3,
        start_column: 1,
        end_column: 20,
        match_: "token = hunter2".to_string(),
        secret: secret.to_string(),
        file: "src/config.rs".to_string(),
        symlink_file: String::new(),
        commit: "c0ffee1".to_string(),
        entropy_bits: 3.5f32.to_bits(),
        author: "Alex Doe".to_string(),
        email: "alex@example.com".to_string(),
        date: "2024-01-01T00:00:00Z".to_string(),
        message: "add config".to_string(),
        tags: vec!["key".to_string()],
        rule_id: rule_id.to_string(),
        fingerprint: fingerprint.to_string(),
    }
}

fn fingerprints(group: &[Finding]) -> Vec<String> {
    group.iter().map(|f| f.fingerprint.clone()).collect()
}

fn lines_of(r: Rendered) -> Vec<String> {
    match r {
        Rendered::Lines(lines) => lines,
        Rendered::Records(_) => panic!("expected plain-text lines"),
    }
}

fn records_of(r: Rendered) -> Vec<Finding> {
    match r {
        Rendered::Records(records) => records,
        Rendered::Lines(_) => panic!("expected records"),
    }
}

#[test]
fn is_duplicate_of_matches_on_secret_and_rule() {
    let a = finding("a", "R1", "f1");
    let b = finding("a", "R1", "f2");
    let c = finding("b", "R1", "f3");
    let d = finding("a", "R2", "f4");
    assert!(a.is_duplicate_of(&b));
    assert!(b.is_duplicate_of(&a));
    assert!(a.is_duplicate_of(&a));
    assert!(!a.is_duplicate_of(&c));
    assert!(!a.is_duplicate_of(&d));
}

#[test]
fn scenario_default_duplicates_text() {
    let input = vec![finding("a", "R1", "f1"), finding("a", "R1", "f2"), finding("b", "R1", "f3")];
    let groups = partition_findings(input);
    let group = select_group(groups, false);
    let lines = lines_of(render(group, RenderMode::PlainFingerprints));
    assert_eq!(lines, vec!["f2".to_string()]);
}

#[test]
fn scenario_unique_text() {
    let input = vec![finding("a", "R1", "f1"), finding("a", "R1", "f2"), finding("b", "R1", "f3")];
    let groups = partition_findings(input);
    let group = select_group(groups, true);
    let lines = lines_of(render(group, RenderMode::PlainFingerprints));
    assert_eq!(lines, vec!["f1".to_string(), "f3".to_string()]);
}

#[test]
fn partition_totality_counts_and_membership() {
    let input = vec![
        finding("a", "R1", "f1"),
        finding("b", "R1", "f2"),
        finding("a", "R1", "f3"),
        finding("a", "R2", "f4"),
        finding("b", "R1", "f5"),
    ];
    let n = input.len();
    let PartitionResult { unique, duplicated } = partition_findings(input);
    assert_eq!(unique.len() + duplicated.len(), n);
    let mut all = fingerprints(&unique);
    all.extend(fingerprints(&duplicated));
    all.sort();
    assert_eq!(all, vec!["f1", "f2", "f3", "f4", "f5"]);
}

#[test]
fn first_occurrence_wins() {
    let input = vec![finding("s", "R9", "f1"), finding("s", "R9", "f2"), finding("s", "R9", "f3")];
    let PartitionResult { unique, duplicated } = partition_findings(input);
    assert_eq!(fingerprints(&unique), vec!["f1"]);
    assert_eq!(fingerprints(&duplicated), vec!["f2", "f3"]);
}

#[test]
fn order_is_preserved_within_groups() {
    let input = vec![
        finding("a", "R1", "f1"),
        finding("b", "R1", "f2"),
        finding("a", "R1", "f3"),
        finding("c", "R1", "f4"),
        finding("b", "R1", "f5"),
        finding("a", "R1", "f6"),
    ];
    let PartitionResult { unique, duplicated } = partition_findings(input);
    assert_eq!(fingerprints(&unique), vec!["f1", "f2", "f4"]);
    assert_eq!(fingerprints(&duplicated), vec!["f3", "f5", "f6"]);
}

#[test]
fn empty_input_gives_empty_groups_and_empty_output() {
    let PartitionResult { unique, duplicated } = partition_findings(Vec::new());
    assert!(unique.is_empty());
    assert!(duplicated.is_empty());
    let lines = lines_of(render(unique, RenderMode::PlainFingerprints));
    assert!(lines.is_empty());
    let records = records_of(render(duplicated, RenderMode::StructuredDump));
    assert!(records.is_empty());
}

#[test]
fn text_output_is_sorted_by_ordinal_comparison() {
    let group = vec![
        finding("w", "R1", "z9"),
        finding("x", "R1", "a10"),
        finding("y", "R1", "a2"),
        finding("z", "R1", "B"),
    ];
    let lines = lines_of(render(group, RenderMode::PlainFingerprints));
    // Ordinal comparison: upper case sorts before lower case, "a10" before "a2".
    assert_eq!(lines, vec!["B", "a10", "a2", "z9"].iter().map(|s| s.to_string()).collect::<Vec<_>>());
}

#[test]
fn sorted_fingerprints_keeps_equal_lines() {
    let group = vec![finding("a", "R1", "dup"), finding("b", "R1", "aaa"), finding("c", "R1", "dup")];
    let lines = sorted_fingerprints(&group);
    assert_eq!(lines, vec!["aaa".to_string(), "dup".to_string(), "dup".to_string()]);
}

#[test]
fn structured_dump_preserves_records_and_order() {
    let mut first = finding("a", "R1", "f1");
    first.tags = vec!["one".to_string(), "two".to_string()];
    let second = finding("b", "R2", "f2");
    let group = vec![first, second];
    let records = records_of(render(group, RenderMode::StructuredDump));
    assert_eq!(records.len(), 2);
    assert_eq!(records[0].fingerprint, "f1");
    assert_eq!(records[0].secret, "a");
    assert_eq!(records[0].rule_id, "R1");
    assert_eq!(records[0].tags, vec!["one".to_string(), "two".to_string()]);
    assert_eq!(records[0].start_line, 3);
    assert_eq!(f32::from_bits(records[0].entropy_bits), 3.5);
    assert_eq!(records[1].fingerprint, "f2");
    assert_eq!(records[1].secret, "b");
    assert_eq!(records[1].rule_id, "R2");
}

#[test]
fn select_group_picks_the_asked_group() {
    let input = vec![finding("a", "R1", "f1"), finding("a", "R1", "f2")];
    let groups = partition_findings(input);
    let unique = select_group(groups, true);
    assert_eq!(fingerprints(&unique), vec!["f1"]);
    let input = vec![finding("a", "R1", "f1"), finding("a", "R1", "f2")];
    let groups = partition_findings(input);
    let duplicated = select_group(groups, false);
    assert_eq!(fingerprints(&duplicated), vec!["f2"]);
}
