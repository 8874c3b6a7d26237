//! Compact storage of file system paths.
//!
//! A path is a sequence of segments (the bytes of each component). Each
//! distinct segment is stored once and gets a dense index; each distinct
//! path is stored once as a node `(segment index, parent path index)` and
//! also gets a dense index. Index 0 is the empty segment and the empty path.
use crate::bimaps::{
    node_by_left, node_by_right, node_pairs, nodes_insert, nodes_len, nodes_new, segment_by_left,
    segment_by_right, segment_pairs, segments_insert, segments_len, segments_new, NodeMap,
    PathNode, SegmentMap,
};
use crate::order::{
    byte_order, is_total_order, lemma_orders_total, lex_cmp, path_cmp, path_order, segment_cmp,
    segment_order,
};
use core::cmp::Ordering;
use vstd::prelude::*;

verus! {

/// The segments of a path, as byte sequences.
pub open spec fn segments_view(path: Seq<Vec<u8>>) -> Seq<Seq<u8>> {
    path.map_values(|s: Vec<u8>| s@)
}

/// A path that a store can hold: no segment is empty.
pub open spec fn valid_path(path: Seq<Seq<u8>>) -> bool {
    forall|k: int| 0 <= k < path.len() ==> (#[trigger] path[k]).len() > 0
}

pub struct PathStore {
    parts: SegmentMap,
    paths: NodeMap,
}

impl PathStore {
    /// Segment index to segment bytes.
    pub closed spec fn segment_map(&self) -> Map<u32, Seq<u8>> {
        segment_pairs(self.parts)
    }

    /// Path index to node.
    pub closed spec fn node_map(&self) -> Map<u32, PathNode> {
        node_pairs(self.paths)
    }

    /// The number of distinct segments stored, the empty one included.
    pub open spec fn segment_count(&self) -> nat {
        self.segment_map().len()
    }

    /// The number of distinct paths stored, the empty one included.
    pub open spec fn path_count(&self) -> nat {
        self.node_map().len()
    }

    /// `i` is the index of a stored path.
    pub open spec fn has_index(&self, i: u32) -> bool {
        (i as nat) < self.path_count()
    }

    /// The path stored under index `i`, found by following the parent links.
    pub closed spec fn path_of(&self, i: u32) -> Seq<Seq<u8>>
        decreases i,
    {
        if i == 0 || !self.node_map().contains_key(i) {
            Seq::empty()
        } else {
            let node = self.node_map()[i];
            let prefix = match node.1 {
                Some(q) => if q < i {
                    self.path_of(q)
                } else {
                    Seq::empty()
                },
                None => Seq::empty(),
            };
            prefix.push(self.segment_map()[node.0])
        }
    }

    /// The store holds `path` under some index.
    pub open spec fn holds(&self, path: Seq<Seq<u8>>) -> bool {
        exists|i: u32| self.has_index(i) && #[trigger] self.path_of(i) == path
    }

    /// The index under which `path` is stored, where it is stored.
    pub closed spec fn index_of(&self, path: Seq<Seq<u8>>) -> u32 {
        choose|i: u32| self.has_index(i) && #[trigger] self.path_of(i) == path
    }

    /// Every index of `self` is an index of `next`, for the same path.
    pub open spec fn kept_in(&self, next: &PathStore) -> bool {
        &&& self.path_count() <= next.path_count()
        &&& self.segment_count() <= next.segment_count()
        &&& forall|i: u32| self.has_index(i) ==> #[trigger] next.path_of(i) == self.path_of(i)
    }

    /// The well-formedness of a store: both index spaces are dense and
    /// start with the empty segment and path, no value is stored twice, and
    /// each node's parent was stored before it.
    pub closed spec fn wf(&self) -> bool {
        &&& segments_wf(self.segment_map())
        &&& nodes_wf(self.node_map(), self.segment_map())
    }

    /// Creates a store that holds only the empty path.
    pub fn new() -> (r: PathStore)
        ensures
            r.wf(),
            r.path_count() == 1,
            r.segment_count() == 1,
            r.path_of(0) == Seq::<Seq<u8>>::empty(),
    {
        let mut parts = segments_new();
        let mut paths = nodes_new();
        segments_insert(&mut parts, 0, Vec::new());
        nodes_insert(&mut paths, 0, (0, None));
        let r = PathStore { parts, paths };
        proof {
            assert(r.segment_map().dom() =~= set![0u32]);
            assert(r.node_map().dom() =~= set![0u32]);
        }
        r
    }

    fn insert_or_lookup_part(parts: &mut SegmentMap, part: &Vec<u8>) -> (r: u32)
        requires
            segments_wf(segment_pairs(*old(parts))),
            segment_pairs(*old(parts)).len() < u32::MAX,
        ensures
            segments_wf(segment_pairs(*final(parts))),
            segment_pairs(*final(parts)).contains_key(r),
            segment_pairs(*final(parts))[r] == part@,
            forall|k: u32|
                segment_pairs(*old(parts)).contains_key(k) && #[trigger] segment_pairs(
                    *old(parts),
                )[k] == part@ ==> k == r,
            segment_pairs(*old(parts)).contains_key(r) ==> segment_pairs(*final(parts))
                == segment_pairs(*old(parts)),
            !segment_pairs(*old(parts)).contains_key(r) ==> r == segment_pairs(*old(parts)).len()
                && segment_pairs(*final(parts)) == segment_pairs(*old(parts)).insert(r, part@),
    {
        match segment_by_right(parts, part) {
            Some(index) => index,
            None => {
                let i = segments_len(parts) as u32;
                let ghost p0 = segment_pairs(*parts);
                segments_insert(parts, i, part.clone());
                proof {
                    let p1 = segment_pairs(*parts);
                    assert(p1.dom() =~= p0.dom().insert(i));
                    assert forall|k: u32| #[trigger] p1.contains_key(k) <==> (k as nat) < p1.len() by {
                    }
                }
                i
            },
        }
    }

    fn insert_or_lookup_path(paths: &mut NodeMap, index: u32, next_index: Option<u32>) -> (r: u32)
        requires
            node_pairs(*old(paths)).dom().finite(),
            node_pairs(*old(paths)).len() < u32::MAX,
            forall|k: u32| #[trigger]
                node_pairs(*old(paths)).contains_key(k) <==> (k as nat) < node_pairs(
                    *old(paths),
                ).len(),
        ensures
            node_pairs(*final(paths)).dom().finite(),
            forall|k: u32| #[trigger]
                node_pairs(*final(paths)).contains_key(k) <==> (k as nat) < node_pairs(
                    *final(paths),
                ).len(),
            node_pairs(*final(paths)).contains_key(r),
            node_pairs(*final(paths))[r] == (index, next_index),
            node_pairs(*old(paths)).contains_key(r) ==> node_pairs(*final(paths)) == node_pairs(
                *old(paths),
            ),
            !node_pairs(*old(paths)).contains_key(r) ==> r == node_pairs(*old(paths)).len()
                && node_pairs(*final(paths)) == node_pairs(*old(paths)).insert(
                r,
                (index, next_index),
            ) && forall|k: u32| #[trigger]
                node_pairs(*old(paths)).contains_key(k) ==> node_pairs(*old(paths))[k] != (
                    index,
                    next_index,
                ),
    {
        match node_by_right(paths, (index, next_index)) {
            Some(i) => i,
            None => {
                let i = nodes_len(paths) as u32;
                let ghost n0 = node_pairs(*paths);
                nodes_insert(paths, i, (index, next_index));
                proof {
                    let n1 = node_pairs(*paths);
                    assert(n1.dom() =~= n0.dom().insert(i));
                }
                i
            },
        }
    }

    /// Adds a path to the store, or finds it there, and returns its index.
    /// The empty path has index 0; a path already held keeps its index and
    /// leaves the store as it was.
    pub fn add_path(&mut self, path: &Vec<Vec<u8>>) -> (r: u32)
        requires
            old(self).wf(),
            valid_path(segments_view(path@)),
            old(self).segment_count() + path.len() <= u32::MAX,
            old(self).path_count() + path.len() <= u32::MAX,
        ensures
            add_path_post(*old(self), *final(self), segments_view(path@), r),
    {
        let ghost segs = segments_view(path@);
        let ghost start = *self;
        if path.len() == 0 {
            proof {
                assert(segs =~= Seq::<Seq<u8>>::empty());
                lemma_kept(start, start);
            }
            return 0;
        }
        let mut current: Option<u32> = None;
        let mut k: usize = 0;
        proof {
            lemma_kept(start, *self);
        }
        while k < path.len()
            invariant
                self.wf(),
                start.wf(),
                start == *old(self),
                0 <= k <= path.len(),
                path.len() > 0,
                segs == segments_view(path@),
                valid_path(segs),
                start.segment_count() + path.len() <= u32::MAX,
                start.path_count() + path.len() <= u32::MAX,
                current is None <==> k == 0,
                current matches Some(c) ==> self.has_index(c) && c != 0 && self.path_of(c)
                    == segs.take(k as int),
                start.kept_in(self),
                start.segment_map().submap_of(self.segment_map()),
                start.node_map().submap_of(self.node_map()),
                self.path_count() <= start.path_count() + k,
                self.segment_count() <= start.segment_count() + k,
                start.holds(segs) ==> self.segment_map() == start.segment_map()
                    && self.node_map() == start.node_map(),
            decreases path.len() - k,
        {
            let ghost prev = *self;
            let part = Self::insert_or_lookup_part(&mut self.parts, &path[k]);
            let ghost mid = *self;
            proof {
                assert(segs[k as int] == path@[k as int]@);
                assert(segs[k as int].len() > 0);
                assert(part != 0);
                if start.holds(segs) {
                    lemma_prefix_held(start, segs, k as int + 1);
                    let j = choose|j: u32|
                        start.has_index(j) && j != 0 && #[trigger] start.path_of(j) == segs.take(
                            k as int + 1,
                        );
                    lemma_path_unfold(start, j);
                    assert(start.path_of(j).last() == segs[k as int]);
                    let sj = start.node_map()[j].0;
                    assert(prev.segment_map().contains_key(sj));
                    assert(prev.segment_map()[sj] == segs[k as int]);
                    assert(prev.segment_map().contains_key(part));
                }
            }
            let node = Self::insert_or_lookup_path(&mut self.paths, part, current);
            proof {
                lemma_step(start, prev, *self, segs, k as int, current, part, node);
            }
            current = Some(node);
            k += 1;
        }
        proof {
            assert(segs.take(k as int) =~= segs);
        }
        match current {
            Some(c) => c,
            None => 0,
        }
    }

    /// The segment indices of the path stored under `index`, from the root.
    fn part_indices(&self, index: u32) -> (r: Vec<u32>)
        requires
            self.wf(),
            self.has_index(index),
        ensures
            r.len() == self.path_of(index).len(),
            forall|k: int|
                0 <= k < r.len() ==> self.segment_map().contains_key(#[trigger] r[k])
                    && self.segment_map()[r[k]] == self.path_of(index)[k],
    {
        let mut r: Vec<u32> = Vec::new();
        let mut cur = index;
        while cur != 0
            invariant
                self.wf(),
                self.has_index(cur),
                self.path_of(index) == self.path_of(cur) + r@.map_values(
                    |x: u32| self.segment_map()[x],
                ),
                forall|k: int|
                    0 <= k < r.len() ==> self.segment_map().contains_key(#[trigger] r[k]),
            decreases cur,
        {
            match node_by_left(&self.paths, cur) {
                Some(node) => {
                    let ghost old_r = r@;
                    proof {
                        lemma_path_unfold(*self, cur);
                    }
                    r.insert(0, node.0);
                    let ghost prefix = self.path_of(cur).drop_last();
                    cur = match node.1 {
                        Some(q) => q,
                        None => 0,
                    };
                    proof {
                        assert(self.path_of(cur) == prefix);
                        let f = |x: u32| self.segment_map()[x];
                        assert(r@.map_values(f) =~= seq![f(node.0)] + old_r.map_values(f));
                        assert(self.path_of(index) =~= self.path_of(cur) + r@.map_values(f));
                    }
                },
                None => {
                    cur = 0;
                },
            }
        }
        proof {
            let f = |x: u32| self.segment_map()[x];
            assert(self.path_of(index) =~= r@.map_values(f));
        }
        r
    }

    /// The path stored under `index`, one segment per element.
    pub fn get_path(&self, index: u32) -> (r: Vec<Vec<u8>>)
        requires
            self.wf(),
            self.has_index(index),
        ensures
            segments_view(r@) == self.path_of(index),
    {
        let indices = self.part_indices(index);
        let mut r: Vec<Vec<u8>> = Vec::new();
        let mut k: usize = 0;
        while k < indices.len()
            invariant
                self.wf(),
                indices.len() == self.path_of(index).len(),
                forall|j: int|
                    0 <= j < indices.len() ==> self.segment_map().contains_key(
                        #[trigger] indices[j],
                    ) && self.segment_map()[indices[j]] == self.path_of(index)[j],
                0 <= k <= indices.len(),
                r.len() == k,
                forall|j: int| 0 <= j < k ==> (#[trigger] r[j])@ == self.path_of(index)[j],
            decreases indices.len() - k,
        {
            match segment_by_left(&self.parts, indices[k]) {
                Some(bytes) => {
                    r.push(bytes);
                },
                None => {
                    r.push(Vec::new());
                },
            }
            k += 1;
        }
        proof {
            assert(segments_view(r@) =~= self.path_of(index));
        }
        r
    }

    /// Compares the paths stored under `a` and `b` segment by segment,
    /// reading segment bytes only where the segment indices differ. A path
    /// comes before the paths that extend it.
    pub fn cmp_paths(&self, a: u32, b: u32) -> (r: Ordering)
        requires
            self.wf(),
            self.has_index(a),
            self.has_index(b),
        ensures
            r == path_cmp(self.path_of(a), self.path_of(b)),
    {
        proof {
            lemma_orders_total();
        }
        if a == b {
            proof {
                assert(path_order()(self.path_of(a), self.path_of(a)) == Ordering::Equal);
            }
            return Ordering::Equal;
        }
        let ia = self.part_indices(a);
        let ib = self.part_indices(b);
        let ghost pa = self.path_of(a);
        let ghost pb = self.path_of(b);
        let mut k: usize = 0;
        proof {
            assert(pa.skip(0) =~= pa);
            assert(pb.skip(0) =~= pb);
        }
        while k < ia.len() && k < ib.len()
            invariant
                self.wf(),
                is_total_order(segment_order()),
                pa == self.path_of(a),
                pb == self.path_of(b),
                ia.len() == pa.len(),
                ib.len() == pb.len(),
                forall|j: int|
                    0 <= j < ia.len() ==> self.segment_map().contains_key(#[trigger] ia[j])
                        && self.segment_map()[ia[j]] == pa[j],
                forall|j: int|
                    0 <= j < ib.len() ==> self.segment_map().contains_key(#[trigger] ib[j])
                        && self.segment_map()[ib[j]] == pb[j],
                0 <= k <= ia.len(),
                k <= ib.len(),
                path_cmp(pa, pb) == lex_cmp(pa.skip(k as int), pb.skip(k as int), segment_order()),
            decreases ia.len() - k,
        {
            let ghost sa = pa.skip(k as int);
            let ghost sb = pb.skip(k as int);
            assert(sa[0] == pa[k as int]);
            assert(sb[0] == pb[k as int]);
            if ia[k] != ib[k] {
                let x = segment_by_left(&self.parts, ia[k]);
                let y = segment_by_left(&self.parts, ib[k]);
                match (x, y) {
                    (Some(x), Some(y)) => {
                        proof {
                            assert(pa[k as int] != pb[k as int]);
                            assert(segment_order()(sa[0], sb[0]) != Ordering::Equal);
                            assert(sa.len() > 0 && sb.len() > 0);
                            assert(lex_cmp(sa, sb, segment_order()) == segment_order()(
                                sa[0],
                                sb[0],
                            ));
                            assert(segment_order()(sa[0], sb[0]) == segment_cmp(x@, y@));
                        }
                        return compare_segments(&x, &y);
                    },
                    _ => {
                        return Ordering::Equal;
                    },
                }
            }
            proof {
                assert(segment_order()(sa[0], sb[0]) == Ordering::Equal);
                assert(sa.drop_first() =~= pa.skip(k as int + 1));
                assert(sb.drop_first() =~= pb.skip(k as int + 1));
            }
            k += 1;
        }
        if ia.len() < ib.len() {
            Ordering::Less
        } else if ia.len() > ib.len() {
            Ordering::Greater
        } else {
            Ordering::Equal
        }
    }
}

/// Compares two segments byte by byte.
fn compare_segments(a: &Vec<u8>, b: &Vec<u8>) -> (r: Ordering)
    ensures
        r == segment_cmp(a@, b@),
{
    let mut i: usize = 0;
    proof {
        assert(a@.skip(0) =~= a@);
        assert(b@.skip(0) =~= b@);
    }
    while i < a.len() && i < b.len()
        invariant
            0 <= i <= a.len(),
            i <= b.len(),
            segment_cmp(a@, b@) == lex_cmp(a@.skip(i as int), b@.skip(i as int), byte_order()),
        decreases a.len() - i,
    {
        let ghost sa = a@.skip(i as int);
        let ghost sb = b@.skip(i as int);
        assert(sa[0] == a@[i as int]);
        assert(sb[0] == b@[i as int]);
        if a[i] < b[i] {
            return Ordering::Less;
        }
        if a[i] > b[i] {
            return Ordering::Greater;
        }
        proof {
            assert(sa.drop_first() =~= a@.skip(i as int + 1));
            assert(sb.drop_first() =~= b@.skip(i as int + 1));
        }
        i += 1;
    }
    if a.len() < b.len() {
        Ordering::Less
    } else if a.len() > b.len() {
        Ordering::Greater
    } else {
        Ordering::Equal
    }
}

/// The segment index space: dense from 0, finite, no segment twice, and
/// index 0 holds the empty segment.
pub open spec fn segments_wf(p: Map<u32, Seq<u8>>) -> bool {
    &&& p.dom().finite()
    &&& p.len() <= u32::MAX
    &&& forall|i: u32| #[trigger] p.contains_key(i) <==> (i as nat) < p.len()
    &&& p.contains_key(0) && p[0] == Seq::<u8>::empty()
    &&& forall|i: u32, j: u32|
        #![trigger p[i], p[j]]
        p.contains_key(i) && p.contains_key(j) && p[i] == p[j] ==> i == j
}

/// The path index space: dense from 0, finite, no node twice, index 0 the
/// empty path, and each other node names a non-empty segment and a parent
/// stored before it.
pub open spec fn nodes_wf(n: Map<u32, PathNode>, p: Map<u32, Seq<u8>>) -> bool {
    &&& n.dom().finite()
    &&& n.len() <= u32::MAX
    &&& forall|i: u32| #[trigger] n.contains_key(i) <==> (i as nat) < n.len()
    &&& n.contains_key(0) && n[0] == (0u32, None::<u32>)
    &&& forall|i: u32, j: u32|
        #![trigger n[i], n[j]]
        n.contains_key(i) && n.contains_key(j) && n[i] == n[j] ==> i == j
    &&& forall|i: u32|
        #![trigger n[i]]
        n.contains_key(i) && i != 0 ==> {
            &&& p.contains_key(n[i].0)
            &&& n[i].0 != 0
            &&& match n[i].1 {
                Some(q) => 0 < q < i,
                None => true,
            }
        }
}

/// Raw parts that make a well-formed store: index 0 holds the empty segment
/// and the empty path, no segment and no node appears twice, and each other
/// node names a stored non-empty segment and a parent stored before it.
pub open spec fn valid_parts(segments: Seq<Seq<u8>>, nodes: Seq<PathNode>) -> bool {
    &&& 1 <= segments.len() <= u32::MAX
    &&& 1 <= nodes.len() <= u32::MAX
    &&& segments[0].len() == 0
    &&& nodes[0] == (0u32, None::<u32>)
    &&& forall|i: int, j: int|
        0 <= i < j < segments.len() ==> #[trigger] segments[i] != #[trigger] segments[j]
    &&& forall|i: int, j: int| 0 <= i < j < nodes.len() ==> #[trigger] nodes[i] != #[trigger] nodes[j]
    &&& forall|i: int| 0 < i < nodes.len() ==> node_fits(#[trigger] nodes[i], i, segments.len() as int)
}

/// A node stored under index `i` names a non-empty segment among `n_segments`
/// and, if any, a parent stored before it.
pub open spec fn node_fits(node: PathNode, i: int, n_segments: int) -> bool {
    &&& node.0 != 0
    &&& node.0 < n_segments
    &&& match node.1 {
        Some(q) => 0 < q < i,
        None => true,
    }
}

impl PathStore {
    /// The number of segments stored.
    pub fn segment_total(&self) -> (r: usize)
        requires
            self.wf(),
        ensures
            r == self.segment_count(),
            r <= u32::MAX,
    {
        segments_len(&self.parts)
    }

    /// The number of paths stored.
    pub fn path_total(&self) -> (r: usize)
        requires
            self.wf(),
        ensures
            r == self.path_count(),
            r <= u32::MAX,
    {
        nodes_len(&self.paths)
    }

    /// The stored segments and nodes, each in index order.
    pub fn to_parts(&self) -> (r: (Vec<Vec<u8>>, Vec<PathNode>))
        requires
            self.wf(),
        ensures
            r.0.len() == self.segment_count(),
            r.1.len() == self.path_count(),
            forall|i: int| 0 <= i < r.0.len() ==> (#[trigger] r.0[i])@ == self.segment_map()[i as u32],
            forall|i: int| 0 <= i < r.1.len() ==> #[trigger] r.1[i] == self.node_map()[i as u32],
            valid_parts(segments_view(r.0@), r.1@),
    {
        let ns = segments_len(&self.parts);
        let mut segments: Vec<Vec<u8>> = Vec::new();
        let mut i: usize = 0;
        while i < ns
            invariant
                self.wf(),
                ns == self.segment_count(),
                0 <= i <= ns,
                segments.len() == i,
                forall|k: int| 0 <= k < i ==> (#[trigger] segments[k])@ == self.segment_map()[k as u32],
            decreases ns - i,
        {
            match segment_by_left(&self.parts, i as u32) {
                Some(v) => segments.push(v),
                None => segments.push(Vec::new()),
            }
            i += 1;
        }
        let nn = nodes_len(&self.paths);
        let mut nodes: Vec<PathNode> = Vec::new();
        let mut j: usize = 0;
        while j < nn
            invariant
                self.wf(),
                nn == self.path_count(),
                0 <= j <= nn,
                nodes.len() == j,
                forall|k: int| 0 <= k < j ==> #[trigger] nodes[k] == self.node_map()[k as u32],
            decreases nn - j,
        {
            match node_by_left(&self.paths, j as u32) {
                Some(v) => nodes.push(v),
                None => nodes.push((0, None)),
            }
            j += 1;
        }
        proof {
            let sv = segments_view(segments@);
            let p = self.segment_map();
            let n = self.node_map();
            assert(sv[0] == p[0u32]);
            assert(nodes[0] == n[0u32]);
            assert forall|a: int, b: int| 0 <= a < b < sv.len() implies #[trigger] sv[a] != #[trigger] sv[b] by {
                assert(sv[a] == p[a as u32]);
                assert(sv[b] == p[b as u32]);
                assert(p.contains_key(a as u32) && p.contains_key(b as u32));
            }
            assert forall|a: int, b: int| 0 <= a < b < nodes.len() implies #[trigger] nodes[a] != #[trigger] nodes[b] by {
                assert(n.contains_key(a as u32) && n.contains_key(b as u32));
            }
            assert forall|a: int| 0 < a < nodes.len() implies node_fits(#[trigger] nodes[a], a, sv.len() as int) by {
                assert(n.contains_key(a as u32));
                assert(p.contains_key(n[a as u32].0));
            }
        }
        (segments, nodes)
    }

    /// Rebuilds a store from its segments and nodes, in index order; `None`
    /// exactly where they do not make a well-formed store.
    pub fn from_parts(segments: Vec<Vec<u8>>, nodes: Vec<PathNode>) -> (r: Option<PathStore>)
        ensures
            r is Some <==> valid_parts(segments_view(segments@), nodes@),
            r matches Some(s) ==> {
                &&& s.wf()
                &&& s.segment_count() == segments.len()
                &&& s.path_count() == nodes.len()
                &&& forall|i: int| 0 <= i < segments.len() ==> s.segment_map()[i as u32] == (#[trigger] segments[i])@
                &&& forall|i: int| 0 <= i < nodes.len() ==> s.node_map()[i as u32] == #[trigger] nodes[i]
            },
    {
        let ghost sv = segments_view(segments@);
        if segments.len() == 0 || segments.len() > u32::MAX as usize || nodes.len() == 0
            || nodes.len() > u32::MAX as usize || segments[0].len() != 0 || nodes[0].0 != 0 || nodes[0].1.is_some() {
            return None;
        }
        let mut parts = segments_new();
        let mut i: usize = 0;
        while i < segments.len()
            invariant
                sv == segments_view(segments@),
                1 <= segments.len() <= u32::MAX,
                sv[0].len() == 0,
                0 <= i <= segments.len(),
                segment_pairs(parts).dom().finite(),
                segment_pairs(parts).len() == i,
                forall|k: u32| #[trigger] segment_pairs(parts).contains_key(k) <==> (k as int) < i,
                forall|k: int| 0 <= k < i ==> segment_pairs(parts)[k as u32] == #[trigger] sv[k],
                forall|a: int, b: int| 0 <= a < b < i ==> #[trigger] sv[a] != #[trigger] sv[b],
            decreases segments.len() - i,
        {
            let ghost p0 = segment_pairs(parts);
            match segment_by_right(&parts, &segments[i]) {
                Some(k) => {
                    proof {
                        assert(sv[k as int] == sv[i as int]);
                        assert(!valid_parts(sv, nodes@));
                    }
                    return None;
                },
                None => {},
            }
            segments_insert(&mut parts, i as u32, segments[i].clone());
            proof {
                let p1 = segment_pairs(parts);
                assert(p1.dom() =~= p0.dom().insert(i as u32));
                assert forall|a: int, b: int| 0 <= a < b < i + 1 implies #[trigger] sv[a] != #[trigger] sv[b] by {
                    if b == i {
                        assert(p0.contains_key(a as u32));
                    }
                }
            }
            i += 1;
        }
        let mut paths = nodes_new();
        let mut j: usize = 0;
        while j < nodes.len()
            invariant
                sv == segments_view(segments@),
                1 <= nodes.len() <= u32::MAX,
                nodes[0] == (0u32, None::<u32>),
                0 <= j <= nodes.len(),
                node_pairs(paths).dom().finite(),
                node_pairs(paths).len() == j,
                forall|k: u32| #[trigger] node_pairs(paths).contains_key(k) <==> (k as int) < j,
                forall|k: int| 0 <= k < j ==> node_pairs(paths)[k as u32] == #[trigger] nodes[k],
                forall|a: int, b: int| 0 <= a < b < j ==> #[trigger] nodes[a] != #[trigger] nodes[b],
                forall|a: int| 0 < a < j ==> node_fits(#[trigger] nodes[a], a, segments.len() as int),
            decreases nodes.len() - j,
        {
            let node = nodes[j];
            let ghost n0 = node_pairs(paths);
            if j > 0 {
                let parent_ok = match node.1 {
                    Some(q) => 0 < q && (q as usize) < j,
                    None => true,
                };
                if node.0 == 0 || node.0 as usize >= segments.len() || !parent_ok {
                    return None;
                }
            }
            match node_by_right(&paths, node) {
                Some(k) => {
                    proof {
                        assert(nodes[k as int] == nodes[j as int]);
                    }
                    return None;
                },
                None => {},
            }
            nodes_insert(&mut paths, j as u32, node);
            proof {
                let n1 = node_pairs(paths);
                assert(n1.dom() =~= n0.dom().insert(j as u32));
                assert forall|a: int, b: int| 0 <= a < b < j + 1 implies #[trigger] nodes[a] != #[trigger] nodes[b] by {
                    if b == j {
                        assert(n0.contains_key(a as u32));
                    }
                }
            }
            j += 1;
        }
        let r = PathStore { parts, paths };
        proof {
            let p = r.segment_map();
            let n = r.node_map();
            assert(p[0u32] == sv[0]);
            assert(p[0u32] =~= Seq::<u8>::empty());
            assert(n[0u32] == nodes[0]);
            assert forall|a: u32, b: u32| p.contains_key(a) && p.contains_key(b) && #[trigger] p[a] == #[trigger] p[b] implies a == b by {
                assert(p[a] == sv[a as int]);
                assert(p[b] == sv[b as int]);
                if a < b {
                    assert(sv[a as int] != sv[b as int]);
                } else if b < a {
                    assert(sv[b as int] != sv[a as int]);
                }
            }
            assert forall|a: u32, b: u32| n.contains_key(a) && n.contains_key(b) && #[trigger] n[a] == #[trigger] n[b] implies a == b by {
                assert(n[a] == nodes[a as int]);
                assert(n[b] == nodes[b as int]);
                if a < b {
                    assert(nodes[a as int] != nodes[b as int]);
                } else if b < a {
                    assert(nodes[b as int] != nodes[a as int]);
                }
            }
            assert forall|a: u32| #![trigger n[a]] n.contains_key(a) && a != 0 implies {
                &&& p.contains_key(n[a].0)
                &&& n[a].0 != 0
                &&& match n[a].1 {
                    Some(q) => 0 < q < a,
                    None => true,
                }
            } by {
                assert(n[a] == nodes[a as int]);
                assert(node_fits(nodes[a as int], a as int, segments.len() as int));
            }
            assert(r.wf());
            assert forall|i: int| 0 <= i < segments.len() implies r.segment_map()[i as u32] == (#[trigger] segments[i])@ by {
                assert(sv[i] == segments[i]@);
            }
            assert forall|i: int| 0 <= i < nodes.len() implies r.node_map()[i as u32] == #[trigger] nodes[i] by {
            }
        }
        Some(r)
    }
}

/// What `add_path` establishes: `r` indexes `path` in the new store, 0
/// exactly for the empty path; old indices keep their paths; the store grew
/// by at most one segment and one node per segment of `path`, and not at all
/// when it held `path` already.
pub open spec fn add_path_post(old: PathStore, new: PathStore, path: Seq<Seq<u8>>, r: u32) -> bool {
    &&& new.wf()
    &&& new.has_index(r)
    &&& new.path_of(r) == path
    &&& (r == 0 <==> path.len() == 0)
    &&& old.kept_in(&new)
    &&& new.path_count() <= old.path_count() + path.len()
    &&& new.segment_count() <= old.segment_count() + path.len()
    &&& old.holds(path) ==> new.segment_map() == old.segment_map() && new.node_map()
        == old.node_map()
}

proof fn lemma_path_unfold(s: PathStore, i: u32)
    requires
        s.wf(),
        s.has_index(i),
        i != 0,
    ensures
        s.path_of(i).len() > 0,
        s.path_of(i).last() == s.segment_map()[s.node_map()[i].0],
        s.path_of(i).drop_last() == match s.node_map()[i].1 {
            Some(q) => s.path_of(q),
            None => Seq::<Seq<u8>>::empty(),
        },
        match s.node_map()[i].1 {
            Some(q) => 0 < q < i && s.has_index(q),
            None => true,
        },
{
    assert(s.node_map().contains_key(i));
    let node = s.node_map()[i];
    let prefix = match node.1 {
        Some(q) => s.path_of(q),
        None => Seq::<Seq<u8>>::empty(),
    };
    assert(s.path_of(i) == prefix.push(s.segment_map()[node.0]));
    assert(s.path_of(i).drop_last() =~= prefix);
}

proof fn lemma_path_zero_empty(s: PathStore, i: u32)
    requires
        s.wf(),
        s.has_index(i),
    ensures
        s.path_of(i).len() == 0 <==> i == 0,
{
    if i != 0 {
        lemma_path_unfold(s, i);
    }
}

/// Distinct indices hold distinct paths.
proof fn lemma_path_injective(s: PathStore, i: u32, j: u32)
    requires
        s.wf(),
        s.has_index(i),
        s.has_index(j),
        s.path_of(i) == s.path_of(j),
    ensures
        i == j,
    decreases i + j,
{
    lemma_path_zero_empty(s, i);
    lemma_path_zero_empty(s, j);
    if i != 0 && j != 0 {
        lemma_path_unfold(s, i);
        lemma_path_unfold(s, j);
        let ni = s.node_map()[i];
        let nj = s.node_map()[j];
        assert(s.segment_map()[ni.0] == s.segment_map()[nj.0]);
        assert(ni.0 == nj.0);
        match (ni.1, nj.1) {
            (Some(qi), Some(qj)) => {
                lemma_path_injective(s, qi, qj);
            },
            (Some(qi), None) => {
                lemma_path_zero_empty(s, qi);
            },
            (None, Some(qj)) => {
                lemma_path_zero_empty(s, qj);
            },
            (None, None) => {},
        }
        assert(s.node_map()[i] == s.node_map()[j]);
    }
}

/// Every non-empty prefix of a held path is held.
proof fn lemma_prefix_held(s: PathStore, path: Seq<Seq<u8>>, k: int)
    requires
        s.wf(),
        s.holds(path),
        1 <= k <= path.len(),
    ensures
        exists|j: u32| s.has_index(j) && j != 0 && #[trigger] s.path_of(j) == path.take(k),
{
    let i = choose|i: u32| s.has_index(i) && #[trigger] s.path_of(i) == path;
    lemma_prefix_of_index(s, i, k);
}

proof fn lemma_prefix_of_index(s: PathStore, i: u32, k: int)
    requires
        s.wf(),
        s.has_index(i),
        1 <= k <= s.path_of(i).len(),
    ensures
        exists|j: u32|
            s.has_index(j) && j != 0 && #[trigger] s.path_of(j) == s.path_of(i).take(k),
    decreases i,
{
    lemma_path_zero_empty(s, i);
    lemma_path_unfold(s, i);
    if k == s.path_of(i).len() {
        assert(s.path_of(i).take(k) =~= s.path_of(i));
    } else {
        let node = s.node_map()[i];
        match node.1 {
            Some(q) => {
                lemma_prefix_of_index(s, q, k);
                assert(s.path_of(i).take(k) =~= s.path_of(q).take(k));
            },
            None => {},
        }
    }
}

/// The index of a stored path is the index it is stored under.
pub proof fn lemma_index_of(s: PathStore, i: u32)
    requires
        s.wf(),
        s.has_index(i),
    ensures
        s.index_of(s.path_of(i)) == i,
{
    let j = s.index_of(s.path_of(i));
    lemma_path_injective(s, i, j);
}

/// On a well-formed store, `path_cmp` orders indices strictly and totally:
/// distinct indices never compare equal.
pub proof fn lemma_index_order(s: PathStore, a: u32, b: u32, c: u32)
    requires
        s.wf(),
        s.has_index(a),
        s.has_index(b),
        s.has_index(c),
    ensures
        path_cmp(s.path_of(a), s.path_of(b)) == Ordering::Equal <==> a == b,
        path_cmp(s.path_of(a), s.path_of(b)) == Ordering::Less <==> path_cmp(s.path_of(b), s.path_of(a)) == Ordering::Greater,
        path_cmp(s.path_of(a), s.path_of(b)) == Ordering::Less && path_cmp(s.path_of(b), s.path_of(c)) == Ordering::Less
            ==> path_cmp(s.path_of(a), s.path_of(c)) == Ordering::Less,
{
    lemma_orders_total();
    assert(path_order()(s.path_of(a), s.path_of(b)) == path_cmp(s.path_of(a), s.path_of(b)));
    assert(path_order()(s.path_of(b), s.path_of(a)) == path_cmp(s.path_of(b), s.path_of(a)));
    assert(path_order()(s.path_of(b), s.path_of(c)) == path_cmp(s.path_of(b), s.path_of(c)));
    assert(path_order()(s.path_of(a), s.path_of(c)) == path_cmp(s.path_of(a), s.path_of(c)));
    if s.path_of(a) == s.path_of(b) {
        lemma_path_injective(s, a, b);
    }
}

/// A store whose maps extend those of `s` holds the paths of `s` under the
/// same indices.
proof fn lemma_frame(s: PathStore, t: PathStore, i: u32)
    requires
        s.wf(),
        t.wf(),
        s.segment_map().submap_of(t.segment_map()),
        s.node_map().submap_of(t.node_map()),
        s.has_index(i),
    ensures
        t.path_of(i) == s.path_of(i),
    decreases i,
{
    if i != 0 {
        assert(s.node_map().contains_key(i));
        assert(t.node_map().contains_key(i));
        let node = s.node_map()[i];
        assert(t.node_map()[i] == node);
        assert(s.segment_map().contains_key(node.0));
        match node.1 {
            Some(q) => {
                lemma_frame(s, t, q);
            },
            None => {},
        }
    }
}

proof fn lemma_kept(s: PathStore, t: PathStore)
    requires
        s.wf(),
        t.wf(),
        s.segment_map().submap_of(t.segment_map()),
        s.node_map().submap_of(t.node_map()),
    ensures
        s.kept_in(&t),
{
    vstd::set_lib::lemma_len_subset(s.segment_map().dom(), t.segment_map().dom());
    vstd::set_lib::lemma_len_subset(s.node_map().dom(), t.node_map().dom());
    assert forall|i: u32| s.has_index(i) implies #[trigger] t.path_of(i) == s.path_of(i) by {
        lemma_frame(s, t, i);
    }
}

/// One step of `add_path`: after looking up (or adding) the segment and
/// the node for segment `k`, the loop's invariant holds for `k + 1`.
proof fn lemma_step(
    start: PathStore,
    prev: PathStore,
    next: PathStore,
    segs: Seq<Seq<u8>>,
    k: int,
    current: Option<u32>,
    part: u32,
    node: u32,
)
    requires
        start.wf(),
        prev.wf(),
        0 <= k < segs.len(),
        valid_path(segs),
        start.segment_count() + segs.len() <= u32::MAX,
        start.path_count() + segs.len() <= u32::MAX,
        current is None <==> k == 0,
        current matches Some(c) ==> prev.has_index(c) && c != 0 && prev.path_of(c) == segs.take(k),
        start.kept_in(&prev),
        start.segment_map().submap_of(prev.segment_map()),
        start.node_map().submap_of(prev.node_map()),
        prev.path_count() <= start.path_count() + k,
        prev.segment_count() <= start.segment_count() + k,
        start.holds(segs) ==> prev.segment_map() == start.segment_map() && prev.node_map()
            == start.node_map(),
        // the segment lookup
        segments_wf(next.segment_map()),
        next.segment_map().contains_key(part),
        next.segment_map()[part] == segs[k],
        prev.segment_map().contains_key(part) ==> next.segment_map() == prev.segment_map(),
        !prev.segment_map().contains_key(part) ==> part == prev.segment_map().len()
            && next.segment_map() == prev.segment_map().insert(part, segs[k]),
        start.holds(segs) ==> prev.segment_map().contains_key(part),
        // the node lookup
        next.node_map().dom().finite(),
        forall|x: u32| #[trigger]
            next.node_map().contains_key(x) <==> (x as nat) < next.node_map().len(),
        next.node_map().contains_key(node),
        next.node_map()[node] == (part, current),
        prev.node_map().contains_key(node) ==> next.node_map() == prev.node_map(),
        !prev.node_map().contains_key(node) ==> node == prev.node_map().len() && next.node_map()
            == prev.node_map().insert(node, (part, current)) && forall|x: u32| #[trigger]
            prev.node_map().contains_key(x) ==> prev.node_map()[x] != (part, current),
    ensures
        next.wf(),
        next.has_index(node),
        node != 0,
        next.path_of(node) == segs.take(k + 1),
        start.kept_in(&next),
        start.segment_map().submap_of(next.segment_map()),
        start.node_map().submap_of(next.node_map()),
        next.path_count() <= start.path_count() + k + 1,
        next.segment_count() <= start.segment_count() + k + 1,
        start.holds(segs) ==> next.segment_map() == start.segment_map() && next.node_map()
            == start.node_map(),
{
    assert(segs[k].len() > 0);
    assert(part != 0);
    let p = prev.segment_map();
    let np = next.segment_map();
    let n = prev.node_map();
    let nn = next.node_map();
    vstd::set_lib::lemma_len_subset(p.dom(), np.dom());
    vstd::set_lib::lemma_len_subset(n.dom(), nn.dom());
    assert(p.submap_of(np));
    assert(n.submap_of(nn));
    match current {
        Some(c) => {
            assert(n.contains_key(c));
        },
        None => {},
    }
    assert(nodes_wf(nn, np)) by {
        assert forall|i: u32| #![trigger nn[i]] nn.contains_key(i) && i != 0 implies {
            &&& np.contains_key(nn[i].0)
            &&& nn[i].0 != 0
            &&& match nn[i].1 {
                Some(q) => 0 < q < i,
                None => true,
            }
        } by {
            if i != node {
                assert(n.contains_key(i));
                assert(nn[i] == n[i]);
                assert(p.contains_key(n[i].0));
            }
        }
        assert forall|i: u32, j: u32|
            #![trigger nn[i], nn[j]]
            nn.contains_key(i) && nn.contains_key(j) && nn[i] == nn[j] implies i == j by {
            if i != node && j != node {
                assert(n[i] == n[j]);
            }
            if i == node && j != node && !n.contains_key(node) {
                assert(n.contains_key(j));
            }
            if j == node && i != node && !n.contains_key(node) {
                assert(n.contains_key(i));
            }
        }
    }
    assert(next.wf());
    lemma_kept(prev, next);
    lemma_kept(start, next);
    lemma_path_unfold(next, node);
    match current {
        Some(c) => {
            assert(next.path_of(c) == prev.path_of(c));
        },
        None => {},
    }
    assert(next.path_of(node) =~= segs.take(k + 1));
    if start.holds(segs) {
        lemma_prefix_held(start, segs, k + 1);
        let j = choose|j: u32|
            start.has_index(j) && j != 0 && #[trigger] start.path_of(j) == segs.take(k + 1);
        lemma_path_unfold(start, j);
        let nj = start.node_map()[j];
        assert(np == p);
        assert(start.segment_map()[nj.0] == segs[k]);
        assert(nj.0 == part);
        lemma_kept(start, prev);
        match nj.1 {
            Some(q) => {
                lemma_path_zero_empty(start, q);
                match current {
                    Some(c) => {
                        assert(start.path_of(q) == segs.take(k));
                        assert(prev.path_of(q) == prev.path_of(c));
                        lemma_path_injective(prev, q, c);
                    },
                    None => {
                        assert(segs.take(k).len() == 0);
                    },
                }
            },
            None => {
                match current {
                    Some(c) => {
                        lemma_path_zero_empty(prev, c);
                        assert(start.path_of(j).drop_last().len() == 0);
                    },
                    None => {},
                }
            },
        }
        assert(n[j] == (part, current));
    }
}

/// Adding a path twice returns the same index both times, and the second
/// call stores no new segment and no new path.
pub proof fn law_add_path_idempotent(
    s0: PathStore,
    s1: PathStore,
    s2: PathStore,
    path: Seq<Seq<u8>>,
    r1: u32,
    r2: u32,
)
    requires
        add_path_post(s0, s1, path, r1),
        add_path_post(s1, s2, path, r2),
    ensures
        r1 == r2,
        s2.segment_count() == s1.segment_count(),
        s2.path_count() == s1.path_count(),
{
    assert(s1.holds(path));
    assert(s2.path_of(r1) == s1.path_of(r1));
    lemma_path_injective(s2, r1, r2);
}

/// The path read back under the index that adding it returned is the path
/// that was added.
pub proof fn law_round_trip(s0: PathStore, s1: PathStore, path: Seq<Seq<u8>>, r: u32)
    requires
        add_path_post(s0, s1, path, r),
    ensures
        s1.has_index(r),
        s1.path_of(r) == path,
{
}

/// The empty path gets index 0, and no other path does.
pub proof fn law_empty_path_index(s0: PathStore, s1: PathStore, path: Seq<Seq<u8>>, r: u32)
    requires
        add_path_post(s0, s1, path, r),
    ensures
        path.len() == 0 ==> r == 0,
        path.len() > 0 ==> r != 0,
{
}

/// Comparing the indices of two added paths orders them as the paths
/// themselves are ordered, segment by segment.
pub proof fn law_cmp_paths_consistent(
    s0: PathStore,
    s1: PathStore,
    s2: PathStore,
    a: Seq<Seq<u8>>,
    b: Seq<Seq<u8>>,
    ra: u32,
    rb: u32,
)
    requires
        add_path_post(s0, s1, a, ra),
        add_path_post(s1, s2, b, rb),
    ensures
        s2.has_index(ra),
        s2.has_index(rb),
        path_cmp(s2.path_of(ra), s2.path_of(rb)) == path_cmp(a, b),
{
    assert(s2.path_of(ra) == s1.path_of(ra));
}

} // verus!
