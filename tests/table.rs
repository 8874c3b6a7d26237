use dedup::analysis::analyze;
use dedup::digest::compute_content_digest;
use dedup::table::{Content, Entry, Flags, Ingester, ItemMetadata, ScannedItem, Table, TableEntry};

fn item(p: &str, is_dir: bool, size: u64) -> ScannedItem {
    ScannedItem {
        path: p.split('/').filter(|s| !s.is_empty()).map(|s| s.as_bytes().to_vec()).collect(),
        metadata: Some(ItemMetadata { is_dir, size }),
    }
}

/// Runs the phases of an ingestion with the file contents given in memory.
fn ingest(table: &mut Table, ing: &Ingester, items: &Vec<ScannedItem>, files: &[(&str, &[u8])]) {
    assert!(table.scan_fits(items));
    let entries = table.add_scanned(ing, items);
    let loaded: Vec<Option<Vec<u8>>> = entries
        .iter()
        .map(|e| {
            if !ing.reads_content(e) {
                return None;
            }
            let path: Vec<String> = TableEntry::new(table, e)
                .path()
                .iter()
                .map(|s| String::from_utf8(s.clone()).unwrap())
                .collect();
            let joined = path.join("/");
            files.iter().find(|(p, _)| *p == joined).map(|(_, c)| c.to_vec())
        })
        .collect();
    let entries = table.attach_loaded(ing, entries, &loaded);
    table.merge_entries(entries);
}

fn paths_of(table: &Table) -> Vec<String> {
    (0..table.len())
        .map(|i| {
            let p: Vec<String> =
                table.entry(i).path().iter().map(|s| String::from_utf8(s.clone()).unwrap()).collect();
            p.join("/")
        })
        .collect()
}

#[test]
fn two_equal_files_have_equal_digests() {
    let mut table = Table::new();
    let mut ing = Ingester::new("root".to_string());
    ing.compute_digests(true);
    let items = vec![item("", true, 0), item("a.txt", false, 5), item("b.txt", false, 5)];
    ingest(&mut table, &ing, &items, &[("a.txt", b"hello"), ("b.txt", b"hello")]);
    assert_eq!(table.len(), 2);
    let a = table.entry(0);
    let b = table.entry(1);
    assert!(a.digest().is_some());
    assert_eq!(a.digest(), b.digest());
    assert_eq!(a.digest(), compute_content_digest(b"hello"));
    let report = table.dedup_report();
    assert_eq!(report.total_bytes, 10);
    assert_eq!(report.dedup_bytes, 5);
    assert_eq!(report.group_count, 1);
    assert_eq!(report.groups, vec![(0, 2)]);
}

#[test]
fn empty_directory_gives_no_entries() {
    let mut table = Table::new();
    let ing = Ingester::new("root".to_string());
    let items = vec![item("", true, 4096)];
    ingest(&mut table, &ing, &items, &[]);
    assert_eq!(table.len(), 0);
}

#[test]
fn directory_entries_on_request() {
    let mut table = Table::new();
    let mut ing = Ingester::new("root".to_string());
    ing.create_directory_entries(true);
    let items = vec![item("", true, 0), item("d", true, 0), item("d/f", false, 3)];
    ingest(&mut table, &ing, &items, &[]);
    assert_eq!(paths_of(&table), vec!["", "d", "d/f"]);
    assert!(table.entry(1).flags().is_dir);
    assert!(!table.entry(2).flags().is_dir);
    assert_eq!(table.entry(2).size(), 3);
}

#[test]
fn entries_come_out_sorted_by_path() {
    let mut table = Table::new();
    let ing = Ingester::new("root".to_string());
    let items = vec![
        item("z", false, 1),
        item("a/b", false, 2),
        item("a-b", false, 3),
        item("a", true, 0),
        item("a/a", false, 4),
    ];
    ingest(&mut table, &ing, &items, &[]);
    assert_eq!(paths_of(&table), vec!["a/a", "a/b", "a-b", "z"]);
}

#[test]
fn rescan_keeps_count_and_takes_new_sizes() {
    let mut table = Table::new();
    let mut ing = Ingester::new("root".to_string());
    ing.compute_digests(true);
    let items = vec![item("x", false, 3), item("y", false, 3)];
    ingest(&mut table, &ing, &items, &[("x", b"one"), ("y", b"two")]);
    assert_eq!(table.len(), 2);
    let before = paths_of(&table);
    let old_digest = table.entry(0).digest();

    let items = vec![item("x", false, 5), item("y", false, 3)];
    ingest(&mut table, &ing, &items, &[("x", b"three"), ("y", b"two")]);
    assert_eq!(table.len(), 2);
    assert_eq!(paths_of(&table), before);
    assert_eq!(table.entry(0).size(), 5);
    assert_ne!(table.entry(0).digest(), old_digest);
    assert_eq!(table.entry(0).digest(), compute_content_digest(b"three"));
}

#[test]
fn rescan_of_a_subtree_adds_only_new_paths() {
    let mut table = Table::new();
    let ing = Ingester::new("root".to_string());
    ingest(&mut table, &ing, &vec![item("a/1", false, 1), item("b/1", false, 1)], &[]);
    ingest(&mut table, &ing, &vec![item("a/1", false, 7), item("a/2", false, 2)], &[]);
    assert_eq!(paths_of(&table), vec!["a/1", "a/2", "b/1"]);
    assert_eq!(table.entry(0).size(), 7);
}

#[test]
fn content_is_stored_inline() {
    let mut table = Table::new();
    let mut ing = Ingester::new("root".to_string());
    ing.ingest_file_content(true);
    ing.compute_digests(true);
    let items = vec![item("a", false, 3), item("b", false, 5), item("c", false, 1)];
    ingest(&mut table, &ing, &items, &[("a", b"abc"), ("b", b"hello")]);
    assert_eq!(table.content, b"abchello".to_vec());
    assert_eq!(*table.entry(0).content(), Content::Bytes(0));
    assert_eq!(*table.entry(1).content(), Content::Bytes(3));
    assert_eq!(table.entry(0).contained_content(), Some(&b"abc"[..]));
    assert_eq!(table.entry(1).contained_content(), Some(&b"hello"[..]));
    assert_eq!(table.entry(1).digest(), compute_content_digest(b"hello"));
    // "c" could not be read: no content, no digest
    assert_eq!(*table.entry(2).content(), Content::Absent);
    assert_eq!(table.entry(2).contained_content(), None);
    assert_eq!(table.entry(2).digest(), None);
}

#[test]
fn content_without_digests() {
    let mut table = Table::new();
    let mut ing = Ingester::new("root".to_string());
    ing.ingest_file_content(true);
    ingest(&mut table, &ing, &vec![item("a", false, 2)], &[("a", b"hi")]);
    assert_eq!(table.entry(0).contained_content(), Some(&b"hi"[..]));
    assert_eq!(table.entry(0).digest(), None);
}

#[test]
fn missing_metadata_gives_size_zero_and_clear_flags() {
    let mut table = Table::new();
    let ing = Ingester::new("root".to_string());
    let items = vec![ScannedItem { path: vec![b"f".to_vec()], metadata: None }];
    ingest(&mut table, &ing, &items, &[]);
    assert_eq!(table.len(), 1);
    assert_eq!(table.entry(0).size(), 0);
    assert_eq!(*table.entry(0).flags(), Flags::default());
}

#[test]
fn scan_fits_refuses_empty_segments() {
    let table = Table::new();
    let items = vec![ScannedItem { path: vec![b"a".to_vec(), Vec::new()], metadata: None }];
    assert!(!table.scan_fits(&items));
}

#[test]
fn append_content_returns_offsets() {
    let mut table = Table::new();
    assert_eq!(table.append_content(b"abc"), Some(0));
    assert_eq!(table.append_content(b""), Some(3));
    assert_eq!(table.append_content(b"de"), Some(3));
    assert_eq!(table.content, b"abcde".to_vec());
}

#[test]
fn contained_content_past_the_arena_is_none() {
    let mut table = Table::new();
    table.append_content(b"abc");
    let entry = Entry { path: 0, size: 10, flags: Flags::default(), content: Content::Bytes(1), digest: None };
    assert_eq!(TableEntry::new(&table, &entry).contained_content(), None);
    let entry = Entry { size: 2, ..entry };
    assert_eq!(TableEntry::new(&table, &entry).contained_content(), Some(&b"bc"[..]));
}

#[test]
fn default_values() {
    assert_eq!(Content::default(), Content::Absent);
    let e = Entry::default();
    assert_eq!(e.path, 0);
    assert_eq!(e.size, 0);
    assert_eq!(e.content, Content::Absent);
    assert_eq!(e.digest, None);
    assert!(!Flags::default().is_dir);
}

#[test]
fn from_parts_accepts_a_table_and_refuses_a_broken_one() {
    let mut table = Table::new();
    let mut ing = Ingester::new("root".to_string());
    ing.ingest_file_content(true);
    ing.compute_digests(true);
    ingest(&mut table, &ing, &vec![item("a", false, 1), item("b", false, 1)], &[("a", b"1"), ("b", b"2")]);
    let (segs, nodes) = table.paths.to_parts();
    let paths = dedup::pathstore::PathStore::from_parts(segs.clone(), nodes.clone()).unwrap();
    let copy = Table::from_parts(table.entries.clone(), paths, table.content.clone()).unwrap();
    assert_eq!(copy.len(), 2);

    // out of order
    let mut swapped = table.entries.clone();
    swapped.swap(0, 1);
    let paths = dedup::pathstore::PathStore::from_parts(segs.clone(), nodes.clone()).unwrap();
    assert!(Table::from_parts(swapped, paths, table.content.clone()).is_none());
    // content past the arena
    let paths = dedup::pathstore::PathStore::from_parts(segs.clone(), nodes.clone()).unwrap();
    assert!(Table::from_parts(table.entries.clone(), paths, Vec::new()).is_none());
    // a zero digest
    let mut zero = table.entries.clone();
    zero[0].digest = Some(0);
    let paths = dedup::pathstore::PathStore::from_parts(segs, nodes).unwrap();
    assert!(Table::from_parts(zero, paths, table.content.clone()).is_none());
}

#[test]
fn analysis_of_a_table_without_digests_is_empty() {
    let mut table = Table::new();
    let ing = Ingester::new("root".to_string());
    ingest(&mut table, &ing, &vec![item("a", false, 1)], &[]);
    let report = table.dedup_report();
    assert_eq!(report.total_bytes, 0);
    assert_eq!(report.group_count, 0);
    let empty = analyze(Vec::new());
    assert_eq!(empty.groups.len(), 0);
}

#[test]
fn compute_all_digests_fills_missing_ones() {
    let mut table = Table::new();
    let ing = table.ingester("root".to_string());
    ingest(&mut table, &ing, &vec![item("a", false, 1), item("b", false, 1), item("c", false, 1)], &[]);
    table.compute_all_digests(&vec![Some(b"x".to_vec()), None, Some(b"z".to_vec())]);
    assert_eq!(table.entry(0).digest(), compute_content_digest(b"x"));
    assert_eq!(table.entry(1).digest(), None);
    assert_eq!(table.entry(2).digest(), compute_content_digest(b"z"));
    // entries that have a digest keep it
    table.compute_all_digests(&vec![Some(b"other".to_vec()); 3]);
    assert_eq!(table.entry(0).digest(), compute_content_digest(b"x"));
    assert_eq!(table.entry(1).digest(), compute_content_digest(b"other"));
}

#[test]
fn ingester_options_chain() {
    let mut ing = Ingester::new("root".to_string());
    ing.compute_digests(true).ingest_file_content(true).create_directory_entries(true).into_dst("dst".to_string());
    assert!(ing.compute_digests && ing.ingest_file_content && ing.create_directory_entries);
    assert_eq!(ing.dst, Some("dst".to_string()));
    assert_eq!(ing.src, "root");
}
