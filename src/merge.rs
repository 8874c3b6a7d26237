//! Merging new entries into a table's entry list: the new entries are
//! sorted by path, runs of one path reduced to one entry, and the result
//! merged with the old list so that a new entry replaces an old one.
use crate::order::path_cmp;
use crate::pathstore::{lemma_index_order, PathStore};
use crate::table::Entry;
use core::cmp::Ordering;
use rayon::slice::ParallelSliceMut;
use vstd::prelude::*;

verus! {

/// The path under index `a` comes before the path under index `b`.
pub open spec fn path_lt(paths: PathStore, a: u32, b: u32) -> bool {
    path_cmp(paths.path_of(a), paths.path_of(b)) == Ordering::Less
}

/// Sorted by path, each path once.
pub open spec fn strictly_sorted(paths: PathStore, s: Seq<Entry>) -> bool {
    forall|i: int, j: int|
        0 <= i < j < s.len() ==> path_lt(paths, #[trigger] s[i].path, #[trigger] s[j].path)
}

/// Some entry of `s` has path index `p`.
pub open spec fn has_path(s: Seq<Entry>, p: u32) -> bool {
    exists|k: int| 0 <= k < s.len() && (#[trigger] s[k]).path == p
}

/// `merged` is what merging `fresh` into `old` gives: every path of either
/// appears, the entry for a path of `fresh` is one of `fresh`, and the other
/// entries are those of `old`.
pub open spec fn merge_result(old: Seq<Entry>, fresh: Seq<Entry>, merged: Seq<Entry>) -> bool {
    &&& forall|p: u32| #[trigger] has_path(merged, p) <==> has_path(old, p) || has_path(fresh, p)
    &&& forall|k: int|
        0 <= k < merged.len() && has_path(fresh, (#[trigger] merged[k]).path) ==> fresh.contains(
            merged[k],
        )
    &&& forall|k: int|
        0 <= k < merged.len() && !has_path(fresh, (#[trigger] merged[k]).path) ==> old.contains(
            merged[k],
        )
}

/// Relies on rayon's `par_sort_unstable_by`, with `cmp_paths` (a total
/// order on stored paths) as the comparator: the same entries, ordered by
/// path.
#[verifier::external_body]
pub(crate) fn sort_entries_by_path(entries: &mut Vec<Entry>, paths: &PathStore)
    requires
        paths.wf(),
        forall|k: int| 0 <= k < old(entries).len() ==> paths.has_index(#[trigger] old(entries)[k].path),
    ensures
        final(entries)@.to_multiset() == old(entries)@.to_multiset(),
        forall|i: int, j: int|
            0 <= i < j < final(entries).len() ==> path_cmp(
                paths.path_of(#[trigger] final(entries)[i].path),
                paths.path_of(#[trigger] final(entries)[j].path),
            ) != Ordering::Greater,
{
    entries.par_sort_unstable_by(|a, b| paths.cmp_paths(a.path, b.path));
}

/// A permutation has the same members, and so the same paths.
pub(crate) proof fn lemma_permutation_members(a: Seq<Entry>, b: Seq<Entry>)
    requires
        b.to_multiset() == a.to_multiset(),
    ensures
        forall|e: Entry| #[trigger] b.contains(e) <==> a.contains(e),
        forall|p: u32| #[trigger] has_path(b, p) <==> has_path(a, p),
        b.len() == a.len(),
{
    a.to_multiset_ensures();
    b.to_multiset_ensures();
    assert forall|e: Entry| #[trigger] b.contains(e) <==> a.contains(e) by {
        assert(b.to_multiset().count(e) == a.to_multiset().count(e));
        assert(b.contains(e) <==> b.to_multiset().count(e) > 0);
        assert(a.contains(e) <==> a.to_multiset().count(e) > 0);
    }
    assert forall|p: u32| #[trigger] has_path(b, p) <==> has_path(a, p) by {
        if has_path(b, p) {
            let k = choose|k: int| 0 <= k < b.len() && (#[trigger] b[k]).path == p;
            assert(b.contains(b[k]));
            assert(a.contains(b[k]));
            let m = choose|m: int| 0 <= m < a.len() && a[m] == b[k];
            assert(a[m].path == p);
        }
        if has_path(a, p) {
            let k = choose|k: int| 0 <= k < a.len() && (#[trigger] a[k]).path == p;
            assert(a.contains(a[k]));
            assert(b.contains(a[k]));
            let m = choose|m: int| 0 <= m < b.len() && b[m] == a[k];
            assert(b[m].path == p);
        }
    }
    assert(b.len() == b.to_multiset().len());
    assert(a.len() == a.to_multiset().len());
}

/// Keeps, of each run of entries with the same path, the last one.
pub(crate) fn dedup_keep_last(sorted: &Vec<Entry>, paths: &PathStore) -> (r: Vec<Entry>)
    requires
        paths.wf(),
        forall|k: int| 0 <= k < sorted.len() ==> paths.has_index(#[trigger] sorted[k].path),
        forall|i: int, j: int|
            0 <= i < j < sorted.len() ==> path_cmp(
                paths.path_of(#[trigger] sorted[i].path),
                paths.path_of(#[trigger] sorted[j].path),
            ) != Ordering::Greater,
    ensures
        strictly_sorted(*paths, r@),
        forall|k: int| 0 <= k < r.len() ==> sorted@.contains(#[trigger] r[k]),
        forall|p: u32| #[trigger] has_path(r@, p) <==> has_path(sorted@, p),
{
    let mut r: Vec<Entry> = Vec::new();
    let n = sorted.len();
    let mut k: usize = 0;
    while k < n
        invariant
            n == sorted.len(),
            paths.wf(),
            forall|j: int| 0 <= j < sorted.len() ==> paths.has_index(#[trigger] sorted[j].path),
            forall|i: int, j: int|
                0 <= i < j < sorted.len() ==> path_cmp(
                    paths.path_of(#[trigger] sorted[i].path),
                    paths.path_of(#[trigger] sorted[j].path),
                ) != Ordering::Greater,
            0 <= k <= n,
            strictly_sorted(*paths, r@),
            forall|j: int| 0 <= j < r.len() ==> sorted@.contains(#[trigger] r[j]),
            k < n ==> forall|j: int|
                0 <= j < r.len() ==> path_lt(*paths, #[trigger] r[j].path, sorted[k as int].path),
            forall|j: int|
                0 <= j < k ==> has_path(r@, #[trigger] sorted[j].path) || (k < n
                    && sorted[j].path == sorted[k as int].path),
        decreases n - k,
    {
        let last_of_run = k + 1 == n || sorted[k].path != sorted[k + 1].path;
        let ghost r0 = r@;
        if last_of_run {
            r.push(sorted[k]);
        }
        proof {
            let x = sorted[k as int];
            assert(sorted@.contains(x));
            if k + 1 < n {
                let y = sorted[k as int + 1];
                lemma_index_order(*paths, x.path, y.path, y.path);
                assert(path_cmp(paths.path_of(x.path), paths.path_of(y.path)) != Ordering::Greater);
                assert forall|j: int| 0 <= j < r.len() implies path_lt(
                    *paths,
                    #[trigger] r[j].path,
                    y.path,
                ) by {
                    if j < r0.len() {
                        lemma_index_order(*paths, r[j].path, x.path, y.path);
                    }
                }
            }
            assert forall|i: int, j: int| 0 <= i < j < r.len() implies path_lt(
                *paths,
                #[trigger] r[i].path,
                #[trigger] r[j].path,
            ) by {
                if j == r0.len() {
                    assert(r[j] == x);
                }
            }
            assert forall|j: int|
                0 <= j < k + 1 implies has_path(r@, #[trigger] sorted[j].path) || (k + 1 < n
                && sorted[j].path == sorted[k as int + 1].path) by {
                if j < k && has_path(r0, sorted[j].path) {
                    let m = choose|m: int| 0 <= m < r0.len() && (#[trigger] r0[m]).path == sorted[j].path;
                    assert(r[m] == r0[m]);
                }
                if last_of_run && sorted[j].path == x.path {
                    assert(r[r.len() - 1] == x);
                }
            }
        }
        k += 1;
    }
    proof {
        assert forall|p: u32| #[trigger] has_path(r@, p) <==> has_path(sorted@, p) by {
            if has_path(r@, p) {
                let m = choose|m: int| 0 <= m < r.len() && (#[trigger] r[m]).path == p;
                assert(sorted@.contains(r[m]));
            }
            if has_path(sorted@, p) {
                let j = choose|j: int| 0 <= j < sorted.len() && (#[trigger] sorted[j]).path == p;
                assert(has_path(r@, sorted[j].path));
            }
        }
    }
    r
}

/// Merges two lists that are each sorted by path and unique by path; where
/// both have a path, the entry of `fresh` is kept.
pub(crate) fn merge_sorted(old: &Vec<Entry>, fresh: &Vec<Entry>, paths: &PathStore) -> (r: Vec<Entry>)
    requires
        paths.wf(),
        strictly_sorted(*paths, old@),
        strictly_sorted(*paths, fresh@),
        forall|k: int| 0 <= k < old.len() ==> paths.has_index(#[trigger] old[k].path),
        forall|k: int| 0 <= k < fresh.len() ==> paths.has_index(#[trigger] fresh[k].path),
    ensures
        strictly_sorted(*paths, r@),
        forall|k: int| 0 <= k < r.len() ==> old@.contains(#[trigger] r[k]) || fresh@.contains(r[k]),
        forall|p: u32| #[trigger] has_path(r@, p) <==> has_path(old@, p) || has_path(fresh@, p),
        forall|k: int|
            0 <= k < r.len() && has_path(fresh@, (#[trigger] r[k]).path) ==> fresh@.contains(r[k]),
        forall|k: int|
            0 <= k < r.len() && !has_path(fresh@, (#[trigger] r[k]).path) ==> old@.contains(r[k]),
{
    let mut r: Vec<Entry> = Vec::new();
    let mut i: usize = 0;
    let mut j: usize = 0;
    while i < old.len() || j < fresh.len()
        invariant
            paths.wf(),
            strictly_sorted(*paths, old@),
            strictly_sorted(*paths, fresh@),
            forall|k: int| 0 <= k < old.len() ==> paths.has_index(#[trigger] old[k].path),
            forall|k: int| 0 <= k < fresh.len() ==> paths.has_index(#[trigger] fresh[k].path),
            0 <= i <= old.len(),
            0 <= j <= fresh.len(),
            strictly_sorted(*paths, r@),
            i < old.len() ==> forall|k: int|
                0 <= k < r.len() ==> path_lt(*paths, #[trigger] r[k].path, old[i as int].path),
            j < fresh.len() ==> forall|k: int|
                0 <= k < r.len() ==> path_lt(*paths, #[trigger] r[k].path, fresh[j as int].path),
            forall|a: int| 0 <= a < i ==> has_path(r@, #[trigger] old[a].path),
            forall|b: int| 0 <= b < j ==> r@.contains(#[trigger] fresh[b]),
            forall|k: int| 0 <= k < r.len() ==> old@.contains(#[trigger] r[k]) || fresh@.contains(r[k]),
            forall|k: int|
                0 <= k < r.len() && has_path(fresh@, (#[trigger] r[k]).path) ==> fresh@.contains(r[k]),
            forall|k: int|
                0 <= k < r.len() && !has_path(fresh@, (#[trigger] r[k]).path) ==> old@.contains(r[k]),
        decreases old.len() - i + fresh.len() - j,
    {
        let ghost r0 = r@;
        let ghost i0 = i as int;
        let ghost j0 = j as int;
        let mut take_old = false;
        let mut take_fresh = false;
        if i < old.len() && j < fresh.len() {
            match paths.cmp_paths(old[i].path, fresh[j].path) {
                Ordering::Less => {
                    take_old = true;
                },
                Ordering::Greater => {
                    take_fresh = true;
                },
                Ordering::Equal => {
                    take_fresh = true;
                    i += 1;
                },
            }
        } else if i < old.len() {
            take_old = true;
        } else {
            take_fresh = true;
        }
        let ghost x: Entry;
        if take_old {
            proof {
                x = old[i as int];
            }
            r.push(old[i]);
            i += 1;
        } else {
            proof {
                x = fresh[j as int];
            }
            r.push(fresh[j]);
            j += 1;
        }
        proof {
            lemma_merge_step(*paths, old@, fresh@, r0, r@, i0, j0, i as int, j as int, x, take_old);
        }
    }
    proof {
        assert forall|p: u32| #[trigger] has_path(r@, p) <==> has_path(old@, p) || has_path(fresh@, p) by {
            if has_path(r@, p) {
                let m = choose|m: int| 0 <= m < r.len() && (#[trigger] r[m]).path == p;
                if old@.contains(r[m]) {
                    let a = choose|a: int| 0 <= a < old.len() && old[a] == r[m];
                    assert(old[a].path == p);
                } else {
                    let b = choose|b: int| 0 <= b < fresh.len() && fresh[b] == r[m];
                    assert(fresh[b].path == p);
                }
            }
            if has_path(old@, p) {
                let a = choose|a: int| 0 <= a < old.len() && (#[trigger] old[a]).path == p;
                assert(has_path(r@, old[a].path));
            }
            if has_path(fresh@, p) {
                let b = choose|b: int| 0 <= b < fresh.len() && (#[trigger] fresh[b]).path == p;
                assert(r@.contains(fresh[b]));
                let m = choose|m: int| 0 <= m < r.len() && r[m] == fresh[b];
                assert(r[m].path == p);
            }
        }
    }
    r
}

/// One step of `merge_sorted`: the loop's invariant holds again after `x`
/// is pushed.
proof fn lemma_merge_step(
    paths: PathStore,
    old: Seq<Entry>,
    fresh: Seq<Entry>,
    r0: Seq<Entry>,
    r1: Seq<Entry>,
    i0: int,
    j0: int,
    i1: int,
    j1: int,
    x: Entry,
    take_old: bool,
)
    requires
        paths.wf(),
        strictly_sorted(paths, old),
        strictly_sorted(paths, fresh),
        forall|k: int| 0 <= k < old.len() ==> paths.has_index(#[trigger] old[k].path),
        forall|k: int| 0 <= k < fresh.len() ==> paths.has_index(#[trigger] fresh[k].path),
        0 <= i0 <= old.len(),
        0 <= j0 <= fresh.len(),
        strictly_sorted(paths, r0),
        i0 < old.len() ==> forall|k: int|
            0 <= k < r0.len() ==> path_lt(paths, #[trigger] r0[k].path, old[i0].path),
        j0 < fresh.len() ==> forall|k: int|
            0 <= k < r0.len() ==> path_lt(paths, #[trigger] r0[k].path, fresh[j0].path),
        forall|a: int| 0 <= a < i0 ==> has_path(r0, #[trigger] old[a].path),
        forall|b: int| 0 <= b < j0 ==> r0.contains(#[trigger] fresh[b]),
        forall|k: int| 0 <= k < r0.len() ==> old.contains(#[trigger] r0[k]) || fresh.contains(r0[k]),
        forall|k: int|
            0 <= k < r0.len() && has_path(fresh, (#[trigger] r0[k]).path) ==> fresh.contains(r0[k]),
        forall|k: int|
            0 <= k < r0.len() && !has_path(fresh, (#[trigger] r0[k]).path) ==> old.contains(r0[k]),
        r1 == r0.push(x),
        take_old ==> {
            &&& i0 < old.len()
            &&& x == old[i0]
            &&& i1 == i0 + 1
            &&& j1 == j0
            &&& j0 < fresh.len() ==> path_cmp(paths.path_of(old[i0].path), paths.path_of(fresh[j0].path))
                == Ordering::Less
        },
        !take_old ==> {
            &&& j0 < fresh.len()
            &&& x == fresh[j0]
            &&& j1 == j0 + 1
            &&& {
                ||| i1 == i0 + 1 && i0 < old.len() && path_cmp(
                    paths.path_of(old[i0].path),
                    paths.path_of(fresh[j0].path),
                ) == Ordering::Equal
                ||| i1 == i0 && (i0 < old.len() ==> path_cmp(
                    paths.path_of(old[i0].path),
                    paths.path_of(fresh[j0].path),
                ) == Ordering::Greater)
            }
        },
    ensures
        0 <= i1 <= old.len(),
        0 <= j1 <= fresh.len(),
        strictly_sorted(paths, r1),
        i1 < old.len() ==> forall|k: int|
            0 <= k < r1.len() ==> path_lt(paths, #[trigger] r1[k].path, old[i1].path),
        j1 < fresh.len() ==> forall|k: int|
            0 <= k < r1.len() ==> path_lt(paths, #[trigger] r1[k].path, fresh[j1].path),
        forall|a: int| 0 <= a < i1 ==> has_path(r1, #[trigger] old[a].path),
        forall|b: int| 0 <= b < j1 ==> r1.contains(#[trigger] fresh[b]),
        forall|k: int| 0 <= k < r1.len() ==> old.contains(#[trigger] r1[k]) || fresh.contains(r1[k]),
        forall|k: int|
            0 <= k < r1.len() && has_path(fresh, (#[trigger] r1[k]).path) ==> fresh.contains(r1[k]),
        forall|k: int|
            0 <= k < r1.len() && !has_path(fresh, (#[trigger] r1[k]).path) ==> old.contains(r1[k]),
{
    let n0 = r0.len() as int;
    assert(r1[n0] == x);
    assert forall|k: int| 0 <= k < n0 implies r1[k] == r0[k] by {}
    assert(paths.has_index(x.path));
    if i0 < old.len() && j0 < fresh.len() {
        lemma_index_order(paths, old[i0].path, fresh[j0].path, fresh[j0].path);
    }
    // every earlier element is below x
    assert forall|k: int| 0 <= k < n0 implies path_lt(paths, #[trigger] r0[k].path, x.path) by {}
    assert forall|a: int, b: int| 0 <= a < b < r1.len() implies path_lt(
        paths,
        #[trigger] r1[a].path,
        #[trigger] r1[b].path,
    ) by {
        if b == n0 {
            assert(path_lt(paths, r0[a].path, x.path));
        } else {
            assert(path_lt(paths, r0[a].path, r0[b].path));
        }
    }
    if i1 < old.len() {
        let y = old[i1];
        assert forall|k: int| 0 <= k < r1.len() implies path_lt(paths, #[trigger] r1[k].path, y.path) by {
            if i1 == i0 + 1 {
                assert(path_lt(paths, old[i0].path, y.path));
                if k < n0 {
                    assert(r1[k] == r0[k]);
                    assert(paths.has_index(r0[k].path));
                    lemma_index_order(paths, r0[k].path, old[i0].path, y.path);
                } else if !take_old {
                    lemma_index_order(paths, old[i0].path, x.path, y.path);
                }
            } else {
                assert(i1 == i0 && !take_old);
                if k == n0 {
                    lemma_index_order(paths, x.path, y.path, y.path);
                } else {
                    assert(r1[k] == r0[k]);
                }
            }
        }
    }
    if j1 < fresh.len() {
        let y = fresh[j1];
        assert forall|k: int| 0 <= k < r1.len() implies path_lt(paths, #[trigger] r1[k].path, y.path) by {
            if j1 == j0 + 1 {
                assert(path_lt(paths, fresh[j0].path, y.path));
                if k < n0 {
                    assert(paths.has_index(r0[k].path));
                    lemma_index_order(paths, r0[k].path, fresh[j0].path, y.path);
                }
            } else if k < n0 {
                assert(r1[k] == r0[k]);
            } else {
                assert(r1[k] == x);
            }
        }
    }
    assert forall|a: int| 0 <= a < i1 implies has_path(r1, #[trigger] old[a].path) by {
        if a < i0 {
            let m = choose|m: int| 0 <= m < r0.len() && (#[trigger] r0[m]).path == old[a].path;
            assert(r1[m] == r0[m]);
        } else {
            assert(r1[n0].path == old[a].path);
        }
    }
    assert forall|b: int| 0 <= b < j1 implies r1.contains(#[trigger] fresh[b]) by {
        if b < j0 {
            let m = choose|m: int| 0 <= m < r0.len() && r0[m] == fresh[b];
            assert(r1[m] == r0[m]);
        } else {
            assert(r1[n0] == fresh[b]);
        }
    }
    if take_old {
        assert(old.contains(x));
        assert(!has_path(fresh, x.path)) by {
            if has_path(fresh, x.path) {
                let b = choose|b: int| 0 <= b < fresh.len() && (#[trigger] fresh[b]).path == x.path;
                lemma_index_order(paths, x.path, x.path, x.path);
                if b < j0 {
                    let m = choose|m: int| 0 <= m < r0.len() && r0[m] == fresh[b];
                    assert(path_lt(paths, r0[m].path, x.path));
                } else {
                    if b > j0 {
                        assert(path_lt(paths, fresh[j0].path, fresh[b].path));
                        lemma_index_order(paths, x.path, fresh[j0].path, fresh[b].path);
                    }
                }
            }
        }
    } else {
        assert(fresh.contains(x));
    }
    assert forall|k: int| 0 <= k < r1.len() implies old.contains(#[trigger] r1[k]) || fresh.contains(
        r1[k],
    ) by {
        if k < n0 {
            assert(r1[k] == r0[k]);
        }
    }
    assert forall|k: int|
        0 <= k < r1.len() && has_path(fresh, (#[trigger] r1[k]).path) implies fresh.contains(r1[k]) by {
        if k < n0 {
            assert(r1[k] == r0[k]);
        }
    }
    assert forall|k: int|
        0 <= k < r1.len() && !has_path(fresh, (#[trigger] r1[k]).path) implies old.contains(r1[k]) by {
        if k < n0 {
            assert(r1[k] == r0[k]);
        }
    }
}

} // verus!
