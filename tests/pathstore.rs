use dedup::pathstore::PathStore;
use std::cmp::Ordering;
use std::path::Path;

fn segments(p: &str) -> Vec<Vec<u8>> {
    Path::new(p)
        .iter()
        .map(|s| s.to_str().unwrap().as_bytes().to_vec())
        .collect()
}

#[test]
fn test_pathstore() {
    let mut path_store = PathStore::new();

    let a_path = segments("/path/to/afile.zip");
    let b_path = segments("/path/to/bfile.zip");
    let a_again_path = segments("/different/path/to/afile.zip");
    let c_path = segments("path/to/local/cfile.zip");
    let c2_path = segments("path/to/local/c2file.zip");
    let empty_path = segments("");

    let a_index = path_store.add_path(&a_path);
    let b_index = path_store.add_path(&b_path);
    let a_again_index = path_store.add_path(&a_again_path);
    let c_index = path_store.add_path(&c_path);
    let c2_index = path_store.add_path(&c2_path);

    assert_ne!(a_index, b_index);
    assert_ne!(a_index, c_index);
    assert_ne!(c2_index, c_index);
    assert_eq!(a_again_index, a_again_index);

    assert_ne!(a_index, 0); // 0 is reserved for the empty path
    let empty_index = path_store.add_path(&empty_path);
    assert_eq!(empty_index, 0);

    assert_eq!(path_store.get_path(a_index), a_path);
    assert_eq!(path_store.get_path(b_index), b_path);
    assert_eq!(path_store.get_path(c_index), c_path);
    assert_eq!(path_store.get_path(empty_index), empty_path);

    assert_eq!(path_store.cmp_paths(a_index, a_index), Ordering::Equal);
    assert_eq!(path_store.cmp_paths(a_index, b_index), Ordering::Less);
    assert_eq!(path_store.cmp_paths(b_index, a_index), Ordering::Greater);

    assert_eq!(
        path_store.cmp_paths(empty_index, empty_index),
        Ordering::Equal
    );
}

#[test]
fn add_path_twice_gives_same_index_and_no_growth() {
    let mut store = PathStore::new();
    let p = segments("src/lib/mod.rs");
    let first = store.add_path(&p);
    let parts = store.segment_total();
    let paths = store.path_total();
    let second = store.add_path(&p);
    assert_eq!(first, second);
    assert_eq!(store.segment_total(), parts);
    assert_eq!(store.path_total(), paths);
}

#[test]
fn shared_prefixes_are_stored_once() {
    let mut store = PathStore::new();
    store.add_path(&segments("a/b/c"));
    assert_eq!(store.segment_total(), 4);
    assert_eq!(store.path_total(), 4);
    store.add_path(&segments("a/b/d"));
    assert_eq!(store.segment_total(), 5);
    assert_eq!(store.path_total(), 5);
    let ab = store.add_path(&segments("a/b"));
    assert_eq!(store.path_total(), 5);
    assert_eq!(store.get_path(ab), segments("a/b"));
}

#[test]
fn round_trip_of_many_paths() {
    let mut store = PathStore::new();
    let paths = [
        "x", "x/y", "y/x", "/", "/x", "a/b/c/d/e/f", "a/b/c/d/e/g", "dir/.hidden", "dir/file.tar.gz",
    ];
    let indices: Vec<u32> = paths.iter().map(|p| store.add_path(&segments(p))).collect();
    for (p, i) in paths.iter().zip(indices.iter()) {
        assert_eq!(store.get_path(*i), segments(p));
    }
}

#[test]
fn empty_path_is_zero_and_nothing_else_is() {
    let mut store = PathStore::new();
    assert_eq!(store.add_path(&Vec::new()), 0);
    assert_ne!(store.add_path(&segments("a")), 0);
    assert_ne!(store.add_path(&segments("/")), 0);
    assert_eq!(store.add_path(&Vec::new()), 0);
    assert_eq!(store.get_path(0), Vec::<Vec<u8>>::new());
}

#[test]
fn cmp_paths_orders_segment_by_segment() {
    let mut store = PathStore::new();
    let ab = store.add_path(&segments("a/b"));
    let abc = store.add_path(&segments("a/b/c"));
    let a_b = store.add_path(&segments("a-b"));
    let b = store.add_path(&segments("b"));
    let aa = store.add_path(&segments("a/a/z"));
    // a proper prefix comes first
    assert_eq!(store.cmp_paths(ab, abc), Ordering::Less);
    assert_eq!(store.cmp_paths(abc, ab), Ordering::Greater);
    // segment-wise, not string-wise: "a" < "a-b" although '/' > '-'
    assert_eq!(store.cmp_paths(abc, a_b), Ordering::Less);
    assert_eq!(store.cmp_paths(a_b, b), Ordering::Less);
    assert_eq!(store.cmp_paths(aa, ab), Ordering::Less);
    assert_eq!(store.cmp_paths(0, ab), Ordering::Less);
}

#[test]
fn cmp_paths_compares_bytes() {
    let mut store = PathStore::new();
    let upper = store.add_path(&vec![b"Zeta".to_vec()]);
    let lower = store.add_path(&vec![b"alpha".to_vec()]);
    let high = store.add_path(&vec![vec![0xc3, 0xa9]]);
    assert_eq!(store.cmp_paths(upper, lower), Ordering::Less);
    assert_eq!(store.cmp_paths(lower, high), Ordering::Less);
    assert_eq!(store.cmp_paths(high, upper), Ordering::Greater);
}

#[test]
fn parts_round_trip_and_rejects_bad_parts() {
    let mut store = PathStore::new();
    let p = store.add_path(&segments("a/b/c"));
    let q = store.add_path(&segments("a/x"));
    let (segs, nodes) = store.to_parts();
    assert_eq!(segs.len(), store.segment_total());
    assert_eq!(nodes.len(), store.path_total());
    let rebuilt = PathStore::from_parts(segs.clone(), nodes.clone()).unwrap();
    assert_eq!(rebuilt.get_path(p), segments("a/b/c"));
    assert_eq!(rebuilt.get_path(q), segments("a/x"));

    // a segment twice
    let mut dup = segs.clone();
    dup.push(segs[1].clone());
    assert!(PathStore::from_parts(dup, nodes.clone()).is_none());
    // a parent that comes after its child
    let mut bad = nodes.clone();
    bad[1] = (1, Some(3));
    assert!(PathStore::from_parts(segs.clone(), bad).is_none());
    // a node naming a segment that is not there
    let mut missing = nodes.clone();
    missing[1] = (99, None);
    assert!(PathStore::from_parts(segs.clone(), missing).is_none());
    // index 0 must be the empty segment
    let mut first = segs.clone();
    first[0] = b"z".to_vec();
    assert!(PathStore::from_parts(first, nodes.clone()).is_none());
    assert!(PathStore::from_parts(Vec::new(), nodes).is_none());
}
