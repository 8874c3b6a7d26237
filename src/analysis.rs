//! Duplication analysis: entries sorted by digest, grouped into runs of
//! equal digest, and the bytes they take with and without duplicates.
use crate::table::{Entry, Table};
use rayon::slice::ParallelSliceMut;
use vstd::prelude::*;

verus! {

/// One file with a digest: `(digest, position in the table, size)`. The
/// table is sorted by path, so ties on the digest go by path.
pub type DigestItem = (u128, usize, u64);

/// The order of std on tuples: component by component.
pub open spec fn item_le(a: DigestItem, b: DigestItem) -> bool {
    a.0 < b.0 || (a.0 == b.0 && (a.1 < b.1 || (a.1 == b.1 && a.2 <= b.2)))
}

/// Relies on rayon's `par_sort_unstable` under std's lexicographic order on
/// tuples: the same items, in ascending order.
#[verifier::external_body]
fn sort_items(items: &mut Vec<DigestItem>)
    ensures
        final(items)@.to_multiset() == old(items)@.to_multiset(),
        forall|i: int, j: int|
            0 <= i < j < final(items).len() ==> item_le(
                #[trigger] final(items)[i],
                #[trigger] final(items)[j],
            ),
{
    items.par_sort_unstable();
}

/// The items of the entries of `s` that have a digest, in order.
pub open spec fn digest_items_of(s: Seq<Entry>) -> Seq<DigestItem>
    decreases s.len(),
{
    if s.len() == 0 {
        Seq::empty()
    } else {
        let before = digest_items_of(s.drop_last());
        match s.last().digest {
            Some(d) => before.push((d, (s.len() - 1) as usize, s.last().size)),
            None => before,
        }
    }
}

/// Position `i` starts a run of equal digests.
pub open spec fn is_run_start(s: Seq<DigestItem>, i: int) -> bool {
    i == 0 || s[i].0 != s[i - 1].0
}

/// The bytes of all items.
pub open spec fn total_size(s: Seq<DigestItem>) -> nat
    decreases s.len(),
{
    if s.len() == 0 {
        0
    } else {
        total_size(s.drop_last()) + s.last().2 as nat
    }
}

/// The bytes of the first item of each run: what is left once duplicates
/// are removed.
pub open spec fn dedup_size(s: Seq<DigestItem>) -> nat
    decreases s.len(),
{
    if s.len() == 0 {
        0
    } else {
        dedup_size(s.drop_last()) + if is_run_start(s, s.len() - 1) {
            s.last().2 as nat
        } else {
            0
        }
    }
}

/// The number of runs.
pub open spec fn run_count(s: Seq<DigestItem>) -> nat
    decreases s.len(),
{
    if s.len() == 0 {
        0
    } else {
        run_count(s.drop_last()) + if is_run_start(s, s.len() - 1) {
            1nat
        } else {
            0
        }
    }
}

/// The items of `s` in `[begin, end)` share the digest of the first.
pub open spec fn same_digest(s: Seq<DigestItem>, begin: int, end: int) -> bool {
    forall|i: int| begin <= i < end ==> (#[trigger] s[i]).0 == s[begin].0
}

/// `g` lists the maximal runs of equal digest in `s` as `[begin, end)`
/// ranges, in order, covering `s`.
pub open spec fn is_grouping(s: Seq<DigestItem>, g: Seq<(usize, usize)>) -> bool {
    &&& (s.len() == 0 <==> g.len() == 0)
    &&& g.len() > 0 ==> g[0].0 == 0 && g.last().1 == s.len()
    &&& forall|k: int| 0 <= k < g.len() ==> (#[trigger] g[k]).0 < g[k].1 <= s.len()
    &&& forall|k: int| 0 <= k < g.len() - 1 ==> (#[trigger] g[k]).1 == g[k + 1].0
    &&& forall|k: int| 0 <= k < g.len() ==> same_digest(s, (#[trigger] g[k]).0 as int, g[k].1 as int)
    &&& forall|k: int|
        0 <= k < g.len() && (#[trigger] g[k]).1 < s.len() ==> s[g[k].1 as int].0 != s[g[k].1 - 1].0
}

/// The groups of at least `min_members + 1` items, the first `max_groups`
/// of them.
pub open spec fn large_groups_of(g: Seq<(usize, usize)>, min_members: usize, max_groups: usize) -> Seq<(usize, usize)>
    decreases g.len(),
{
    if g.len() == 0 {
        Seq::empty()
    } else {
        let before = large_groups_of(g.drop_last(), min_members, max_groups);
        if before.len() < max_groups && g.last().1 - g.last().0 > min_members {
            before.push(g.last())
        } else {
            before
        }
    }
}

/// The result of the analysis.
pub struct DedupReport {
    /// The items, sorted by digest, then by table position.
    pub items: Vec<DigestItem>,
    /// The runs of equal digest in `items`.
    pub groups: Vec<(usize, usize)>,
    /// The bytes of all items.
    pub total_bytes: u128,
    /// The bytes of one item per group.
    pub dedup_bytes: u128,
    /// The number of groups.
    pub group_count: usize,
}

/// Splits items sorted by digest into maximal runs of equal digest.
pub fn group_by_digest(items: &Vec<DigestItem>) -> (r: Vec<(usize, usize)>)
    ensures
        is_grouping(items@, r@),
        r.len() == run_count(items@),
{
    let n = items.len();
    let mut r: Vec<(usize, usize)> = Vec::new();
    if n == 0 {
        return r;
    }
    let mut begin: usize = 0;
    let mut i: usize = 1;
    while i < n
        invariant
            n == items.len(),
            0 <= begin < i <= n,
            is_run_start(items@, begin as int),
            same_digest(items@, begin as int, i as int),
            r.len() == run_count(items@.take(begin as int)),
            r.len() > 0 ==> r[0].0 == 0 && r@.last().1 == begin,
            r.len() == 0 ==> begin == 0,
            forall|k: int| 0 <= k < r.len() ==> (#[trigger] r[k]).0 < r[k].1 <= begin,
            forall|k: int| 0 <= k < r.len() - 1 ==> (#[trigger] r[k]).1 == r[k + 1].0,
            forall|k: int| 0 <= k < r.len() ==> same_digest(items@, (#[trigger] r[k]).0 as int, r[k].1 as int),
            forall|k: int|
                0 <= k < r.len() ==> items[(#[trigger] r[k]).1 as int].0 != items[r[k].1 - 1].0,
        decreases n - i,
    {
        proof {
            lemma_run_count_step(items@, i as int);
        }
        if items[i].0 != items[i - 1].0 {
            let ghost r0 = r@;
            r.push((begin, i));
            proof {
                assert(r[r.len() - 1] == (begin, i));
                assert forall|k: int| 0 <= k < r.len() implies same_digest(items@, (#[trigger] r[k]).0 as int, r[k].1 as int) by {
                    if k < r0.len() {
                        assert(r[k] == r0[k]);
                    }
                }
                lemma_run_count_between(items@, begin as int, i as int);
            }
            begin = i;
        }
        i += 1;
    }
    let ghost r0 = r@;
    r.push((begin, n));
    proof {
        lemma_run_count_between(items@, begin as int, n as int);
        assert(items@.take(n as int) =~= items@);
        assert forall|k: int| 0 <= k < r.len() implies same_digest(items@, (#[trigger] r[k]).0 as int, r[k].1 as int) by {
            if k < r0.len() {
                assert(r[k] == r0[k]);
            }
        }
    }
    r
}

proof fn lemma_run_count_step(s: Seq<DigestItem>, i: int)
    requires
        0 < i < s.len(),
    ensures
        run_count(s.take(i + 1)) == run_count(s.take(i)) + if is_run_start(s, i) {
            1nat
        } else {
            0
        },
{
    assert(s.take(i + 1).drop_last() =~= s.take(i));
}

/// Within a run, after its start, no new run begins.
proof fn lemma_run_count_between(s: Seq<DigestItem>, begin: int, end: int)
    requires
        0 <= begin < end <= s.len(),
        is_run_start(s, begin),
        same_digest(s, begin, end),
    ensures
        run_count(s.take(end)) == run_count(s.take(begin)) + 1,
    decreases end - begin,
{
    assert(s.take(end).drop_last() =~= s.take(end - 1));
    if end - 1 > begin {
        lemma_run_count_between(s, begin, end - 1);
        assert(!is_run_start(s.take(end), end - 1));
    } else {
        assert(is_run_start(s.take(end), end - 1));
    }
}

/// Bytes with and without duplicates, and the number of distinct contents.
pub struct Savings {
    pub total_bytes: u128,
    pub dedup_bytes: u128,
    pub group_count: usize,
}

/// Sums the sizes of items sorted by digest: all of them, and the first of
/// each run of equal digest; and counts the runs.
pub fn compute_savings(items: &Vec<DigestItem>) -> (r: Savings)
    ensures
        r.total_bytes == total_size(items@),
        r.dedup_bytes == dedup_size(items@),
        r.group_count == run_count(items@),
{
    let mut total: u128 = 0;
    let mut dedup: u128 = 0;
    let mut count: usize = 0;
    let mut i: usize = 0;
    while i < items.len()
        invariant
            0 <= i <= items.len(),
            total == total_size(items@.take(i as int)),
            dedup == dedup_size(items@.take(i as int)),
            count == run_count(items@.take(i as int)),
            total_size(items@.take(i as int)) <= i * 0xffff_ffff_ffff_ffff,
            dedup_size(items@.take(i as int)) <= total_size(items@.take(i as int)),
            run_count(items@.take(i as int)) <= i,
        decreases items.len() - i,
    {
        proof {
            lemma_sums_step(items@, i as int);
            lemma_sum_bound(i as int);
        }
        let size = items[i].2 as u128;
        total = total + size;
        if i == 0 || items[i].0 != items[i - 1].0 {
            dedup = dedup + size;
            count = count + 1;
        }
        i += 1;
    }
    proof {
        assert(items@.take(i as int) =~= items@);
    }
    Savings { total_bytes: total, dedup_bytes: dedup, group_count: count }
}

proof fn lemma_sums_step(s: Seq<DigestItem>, i: int)
    requires
        0 <= i < s.len(),
    ensures
        total_size(s.take(i + 1)) == total_size(s.take(i)) + s[i].2,
        dedup_size(s.take(i + 1)) == dedup_size(s.take(i)) + if is_run_start(s, i) {
            s[i].2 as nat
        } else {
            0
        },
        run_count(s.take(i + 1)) == run_count(s.take(i)) + if is_run_start(s, i) {
            1nat
        } else {
            0
        },
{
    assert(s.take(i + 1).drop_last() =~= s.take(i));
}

proof fn lemma_sum_bound(i: int)
    requires
        0 <= i < 0x1_0000_0000_0000_0000,
    ensures
        (i + 1) * 0xffff_ffff_ffff_ffff <= 0xffff_ffff_ffff_ffff_ffff_ffff_ffff_ffff,
{
    assert((i + 1) * 0xffff_ffff_ffff_ffff <= 0x1_0000_0000_0000_0000 * 0xffff_ffff_ffff_ffff)
        by (nonlinear_arith)
        requires
            0 <= i < 0x1_0000_0000_0000_0000,
    ;
}

/// Removing the item at `m` takes its size off the total.
proof fn lemma_total_remove(s: Seq<DigestItem>, m: int)
    requires
        0 <= m < s.len(),
    ensures
        total_size(s) == total_size(s.remove(m)) + s[m].2,
    decreases s.len(),
{
    if m < s.len() - 1 {
        let t = s.drop_last();
        lemma_total_remove(t, m);
        assert(s.remove(m).drop_last() =~= t.remove(m));
        assert(s.remove(m).last() == s.last());
    } else {
        assert(s.remove(m) =~= s.drop_last());
    }
}

/// Reordering items keeps their total size.
pub proof fn lemma_total_permutation(a: Seq<DigestItem>, b: Seq<DigestItem>)
    requires
        a.to_multiset() == b.to_multiset(),
    ensures
        total_size(a) == total_size(b),
    decreases a.len(),
{
    a.to_multiset_ensures();
    b.to_multiset_ensures();
    if a.len() > 0 {
        let x = a.last();
        assert(a.to_multiset().count(x) > 0) by {
            assert(a.contains(x));
        }
        assert(b.contains(x));
        let m = choose|m: int| 0 <= m < b.len() && b[m] == x;
        b.to_multiset_ensures();
        let a1 = a.drop_last();
        let b1 = b.remove(m);
        assert(a =~= a1.push(x));
        a1.to_multiset_ensures();
        assert(a1.to_multiset() =~= a.to_multiset().remove(x));
        assert(b1.to_multiset() =~= b.to_multiset().remove(b[m]));
        lemma_total_permutation(a1, b1);
        lemma_total_remove(b, m);
    } else {
        assert(b.len() == 0);
    }
}

/// Sorts items by digest, groups them into runs of equal digest and sums
/// their sizes.
pub fn analyze(items: Vec<DigestItem>) -> (r: DedupReport)
    ensures
        r.items@.to_multiset() == items@.to_multiset(),
        forall|i: int, j: int|
            0 <= i < j < r.items.len() ==> item_le(#[trigger] r.items[i], #[trigger] r.items[j]),
        is_grouping(r.items@, r.groups@),
        r.total_bytes == total_size(items@),
        r.total_bytes == total_size(r.items@),
        r.dedup_bytes == dedup_size(r.items@),
        r.group_count == run_count(r.items@),
        r.group_count == r.groups.len(),
{
    let mut sorted = items;
    sort_items(&mut sorted);
    proof {
        lemma_total_permutation(sorted@, items@);
    }
    let groups = group_by_digest(&sorted);
    let savings = compute_savings(&sorted);
    DedupReport {
        items: sorted,
        groups,
        total_bytes: savings.total_bytes,
        dedup_bytes: savings.dedup_bytes,
        group_count: savings.group_count,
    }
}

impl DedupReport {
    /// The groups of more than `min_members` items, the first `max_groups`
    /// of them in digest order.
    pub fn large_groups(&self, min_members: usize, max_groups: usize) -> (r: Vec<(usize, usize)>)
        requires
            forall|k: int| 0 <= k < self.groups.len() ==> (#[trigger] self.groups[k]).0 <= self.groups[k].1,
        ensures
            r@ == large_groups_of(self.groups@, min_members, max_groups),
    {
        let mut r: Vec<(usize, usize)> = Vec::new();
        let mut k: usize = 0;
        while k < self.groups.len()
            invariant
                0 <= k <= self.groups.len(),
                forall|j: int| 0 <= j < self.groups.len() ==> (#[trigger] self.groups[j]).0 <= self.groups[j].1,
                r@ == large_groups_of(self.groups@.take(k as int), min_members, max_groups),
            decreases self.groups.len() - k,
        {
            let g = self.groups[k];
            proof {
                assert(self.groups@.take(k as int + 1).drop_last() =~= self.groups@.take(k as int));
            }
            if r.len() < max_groups && g.1 - g.0 > min_members {
                r.push(g);
            }
            k += 1;
        }
        proof {
            assert(self.groups@.take(k as int) =~= self.groups@);
        }
        r
    }
}

impl Table {
    /// The entries that have a digest, as `(digest, position, size)`.
    pub fn digest_items(&self) -> (r: Vec<DigestItem>)
        ensures
            r@ == digest_items_of(self.entries@),
    {
        let mut r: Vec<DigestItem> = Vec::new();
        let mut k: usize = 0;
        while k < self.entries.len()
            invariant
                0 <= k <= self.entries.len(),
                r@ == digest_items_of(self.entries@.take(k as int)),
            decreases self.entries.len() - k,
        {
            let e = self.entries[k];
            proof {
                assert(self.entries@.take(k as int + 1).drop_last() =~= self.entries@.take(k as int));
            }
            match e.digest {
                Some(d) => {
                    r.push((d, k, e.size));
                },
                None => {},
            }
            k += 1;
        }
        proof {
            assert(self.entries@.take(k as int) =~= self.entries@);
        }
        r
    }

    /// The duplication report over the entries that have a digest.
    pub fn dedup_report(&self) -> (r: DedupReport)
        ensures
            r.items@.to_multiset() == digest_items_of(self.entries@).to_multiset(),
            forall|i: int, j: int|
                0 <= i < j < r.items.len() ==> item_le(#[trigger] r.items[i], #[trigger] r.items[j]),
            is_grouping(r.items@, r.groups@),
            r.total_bytes == total_size(digest_items_of(self.entries@)),
            r.dedup_bytes == dedup_size(r.items@),
            r.group_count == run_count(r.items@),
            r.group_count == r.groups.len(),
    {
        analyze(self.digest_items())
    }
}

} // verus!
