use dedup::dedup::{BuildStep, DedupBuilder};
use dedup::table::{Ingester, ItemMetadata, ScannedItem, Table};

#[test]
fn unreadable_stored_table_leads_to_a_scan() {
    let mut builder = DedupBuilder::new("/data".to_string());
    assert_eq!(builder.next_step(false), BuildStep::Scan);
    builder.with_digest_file("/tmp/table".to_string());
    assert_eq!(builder.next_step(false), BuildStep::ScanAndSave);
    assert_eq!(builder.next_step(true), BuildStep::UseStored);
    assert_eq!(builder.root(), "/data");
    assert_eq!(builder.digest_file().map(|s| s.as_str()), Some("/tmp/table"));
}

#[test]
fn stats_count_entries_and_file_bytes() {
    let mut table = Table::new();
    let mut ing = Ingester::new("/data".to_string());
    ing.create_directory_entries(true);
    let items = vec![
        ScannedItem { path: vec![b"d".to_vec()], metadata: Some(ItemMetadata { is_dir: true, size: 4096 }) },
        ScannedItem { path: vec![b"d".to_vec(), b"f".to_vec()], metadata: Some(ItemMetadata { is_dir: false, size: 10 }) },
        ScannedItem { path: vec![b"g".to_vec()], metadata: Some(ItemMetadata { is_dir: false, size: 32 }) },
    ];
    let entries = table.add_scanned(&ing, &items);
    let loaded = vec![None; entries.len()];
    let entries = table.attach_loaded(&ing, entries, &loaded);
    table.merge_entries(entries);

    let mut session = DedupBuilder::new("/data".to_string()).build(table);
    let stats = session.stats();
    assert_eq!(stats.file_count, 3);
    assert_eq!(stats.total_size, 42);
    session.dedup();
    session.stats_marginal("d");
    assert_eq!(session.stats().file_count, 3);
    assert_eq!(session.root, "/data");
}

#[test]
fn corrupt_table_file_falls_back_to_scan() {
    // what a stored table file holds after it was overwritten with noise
    let noise: Vec<u8> = (0u32..512).map(|i| (i.wrapping_mul(2654435761) >> 13) as u8).collect();
    let decoded = zstd::stream::decode_all(&noise[..]);
    assert!(decoded.is_err());
    // noise that happens to decode still has to make a valid store
    let segments = vec![b"not empty".to_vec()];
    let nodes = vec![(7u32, Some(9u32))];
    assert!(dedup::pathstore::PathStore::from_parts(segments, nodes).is_none());

    let mut builder = DedupBuilder::new("/data".to_string());
    builder.with_digest_file("/tmp/table".to_string());
    assert_eq!(builder.next_step(decoded.is_ok()), BuildStep::ScanAndSave);
}
