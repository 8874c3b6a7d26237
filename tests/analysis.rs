use dedup::analysis::{analyze, compute_savings, group_by_digest, DedupReport};

const A: u128 = 0xaaaa;
const B: u128 = 0xbbbb;
const C: u128 = 0xcccc;

#[test]
fn grouping_example() {
    let items = vec![(A, 0, 10), (A, 1, 10), (B, 2, 5), (C, 3, 3), (C, 4, 3), (C, 5, 3)];
    let report = analyze(items);
    assert_eq!(report.total_bytes, 34);
    assert_eq!(report.dedup_bytes, 18);
    assert_eq!(report.group_count, 3);
    let sizes: Vec<usize> = report.groups.iter().map(|(b, e)| e - b).collect();
    assert_eq!(sizes, vec![2, 1, 3]);
}

#[test]
fn analyze_sorts_by_digest_then_position() {
    let items = vec![(C, 5, 3), (A, 1, 10), (B, 2, 5), (C, 3, 3), (A, 0, 10), (C, 4, 3)];
    let report = analyze(items);
    assert_eq!(
        report.items,
        vec![(A, 0, 10), (A, 1, 10), (B, 2, 5), (C, 3, 3), (C, 4, 3), (C, 5, 3)]
    );
    assert_eq!(report.groups, vec![(0, 2), (2, 3), (3, 6)]);
    assert_eq!(report.total_bytes, 34);
    assert_eq!(report.dedup_bytes, 18);
}

#[test]
fn group_by_digest_on_edges() {
    assert_eq!(group_by_digest(&Vec::new()), Vec::<(usize, usize)>::new());
    assert_eq!(group_by_digest(&vec![(A, 0, 1)]), vec![(0, 1)]);
    assert_eq!(group_by_digest(&vec![(A, 0, 1), (A, 1, 1), (A, 2, 1)]), vec![(0, 3)]);
    assert_eq!(group_by_digest(&vec![(A, 0, 1), (B, 1, 1), (C, 2, 1)]), vec![(0, 1), (1, 2), (2, 3)]);
}

#[test]
fn savings_use_the_first_size_of_each_group() {
    let s = compute_savings(&vec![(A, 0, 7), (A, 1, 9), (B, 2, 4)]);
    assert_eq!(s.total_bytes, 20);
    assert_eq!(s.dedup_bytes, 11);
    assert_eq!(s.group_count, 2);
}

#[test]
fn savings_do_not_overflow() {
    let s = compute_savings(&vec![(A, 0, u64::MAX), (B, 1, u64::MAX), (B, 2, u64::MAX)]);
    assert_eq!(s.total_bytes, 3 * u64::MAX as u128);
    assert_eq!(s.dedup_bytes, 2 * u64::MAX as u128);
}

#[test]
fn large_groups_picks_the_first_big_ones() {
    let report = DedupReport {
        items: Vec::new(),
        groups: vec![(0, 1), (1, 4), (4, 5), (5, 9), (9, 12)],
        total_bytes: 0,
        dedup_bytes: 0,
        group_count: 5,
    };
    assert_eq!(report.large_groups(2, 10), vec![(1, 4), (5, 9), (9, 12)]);
    assert_eq!(report.large_groups(2, 2), vec![(1, 4), (5, 9)]);
    assert_eq!(report.large_groups(3, 10), vec![(5, 9)]);
    assert_eq!(report.large_groups(0, 0), Vec::<(usize, usize)>::new());
}
