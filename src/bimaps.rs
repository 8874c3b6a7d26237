//! The two-way maps of the path store, from the `bimap` crate: what each
//! holds, and the operations the store uses, with what they do to it.
use bimap::BiHashMap;
use vstd::prelude::*;

verus! {

/// `bimap::BiHashMap`, a map that looks up both ways; opaque here, and
/// known through the names and operations below.
#[verifier::external_type_specification]
#[verifier::external_body]
#[verifier::reject_recursive_types(L)]
#[verifier::reject_recursive_types(R)]
#[verifier::reject_recursive_types(LS)]
#[verifier::reject_recursive_types(RS)]
pub struct ExBiHashMap<L, R, LS, RS>(BiHashMap<L, R, LS, RS>);

/// A stored path: the index of its last segment and the index of the path
/// that leads to it (`None` for a path of one segment).
pub type PathNode = (u32, Option<u32>);

/// Segment index to segment bytes, both ways.
pub type SegmentMap = BiHashMap<u32, Vec<u8>>;

/// Path index to node, both ways.
pub type NodeMap = BiHashMap<u32, PathNode>;

/// The pairs held by a segment map: index to segment bytes.
pub uninterp spec fn segment_pairs(m: SegmentMap) -> Map<u32, Seq<u8>>;

/// The pairs held by a node map: index to node.
pub uninterp spec fn node_pairs(m: NodeMap) -> Map<u32, PathNode>;

/// Relies on `bimap::BiHashMap::new`: a map without pairs.
#[verifier::external_body]
pub(crate) fn segments_new() -> (r: SegmentMap)
    ensures
        segment_pairs(r).dom() == Set::<u32>::empty(),
{
    BiHashMap::new()
}

/// Relies on `bimap::BiHashMap::len`: the number of pairs.
#[verifier::external_body]
pub(crate) fn segments_len(m: &SegmentMap) -> (r: usize)
    ensures
        r == segment_pairs(*m).len(),
{
    m.len()
}

/// Relies on `bimap::BiHashMap::get_by_left`: the value paired with `left`.
#[verifier::external_body]
pub(crate) fn segment_by_left(m: &SegmentMap, left: u32) -> (r: Option<Vec<u8>>)
    ensures
        match r {
            Some(v) => segment_pairs(*m).contains_key(left) && v@ == segment_pairs(*m)[left],
            None => !segment_pairs(*m).contains_key(left),
        },
{
    m.get_by_left(&left).cloned()
}

/// Relies on `bimap::BiHashMap::get_by_right`: the key paired with `right`.
#[verifier::external_body]
pub(crate) fn segment_by_right(m: &SegmentMap, right: &Vec<u8>) -> (r: Option<u32>)
    ensures
        match r {
            Some(k) => segment_pairs(*m).contains_key(k) && segment_pairs(*m)[k] == right@,
            None => forall|k: u32| #[trigger]
                segment_pairs(*m).contains_key(k) ==> segment_pairs(*m)[k] != right@,
        },
{
    m.get_by_right(right).copied()
}

/// Relies on `bimap::BiHashMap::insert`: with neither value present before,
/// the pair is added and nothing is overwritten.
#[verifier::external_body]
pub(crate) fn segments_insert(m: &mut SegmentMap, left: u32, right: Vec<u8>)
    requires
        !segment_pairs(*old(m)).contains_key(left),
        forall|k: u32| #[trigger]
            segment_pairs(*old(m)).contains_key(k) ==> segment_pairs(*old(m))[k] != right@,
    ensures
        segment_pairs(*final(m)) == segment_pairs(*old(m)).insert(left, right@),
{
    m.insert(left, right);
}

/// Relies on `bimap::BiHashMap::new`: a map without pairs.
#[verifier::external_body]
pub(crate) fn nodes_new() -> (r: NodeMap)
    ensures
        node_pairs(r).dom() == Set::<u32>::empty(),
{
    BiHashMap::new()
}

/// Relies on `bimap::BiHashMap::len`: the number of pairs.
#[verifier::external_body]
pub(crate) fn nodes_len(m: &NodeMap) -> (r: usize)
    ensures
        r == node_pairs(*m).len(),
{
    m.len()
}

/// Relies on `bimap::BiHashMap::get_by_left`: the value paired with `left`.
#[verifier::external_body]
pub(crate) fn node_by_left(m: &NodeMap, left: u32) -> (r: Option<PathNode>)
    ensures
        match r {
            Some(v) => node_pairs(*m).contains_key(left) && v == node_pairs(*m)[left],
            None => !node_pairs(*m).contains_key(left),
        },
{
    m.get_by_left(&left).copied()
}

/// Relies on `bimap::BiHashMap::get_by_right`: the key paired with `right`.
#[verifier::external_body]
pub(crate) fn node_by_right(m: &NodeMap, right: PathNode) -> (r: Option<u32>)
    ensures
        match r {
            Some(k) => node_pairs(*m).contains_key(k) && node_pairs(*m)[k] == right,
            None => forall|k: u32| #[trigger]
                node_pairs(*m).contains_key(k) ==> node_pairs(*m)[k] != right,
        },
{
    m.get_by_right(&right).copied()
}

/// Relies on `bimap::BiHashMap::insert`: with neither value present before,
/// the pair is added and nothing is overwritten.
#[verifier::external_body]
pub(crate) fn nodes_insert(m: &mut NodeMap, left: u32, right: PathNode)
    requires
        !node_pairs(*old(m)).contains_key(left),
        forall|k: u32| #[trigger]
            node_pairs(*old(m)).contains_key(k) ==> node_pairs(*old(m))[k] != right,
    ensures
        node_pairs(*final(m)) == node_pairs(*old(m)).insert(left, right),
{
    m.insert(left, right);
}

} // verus!
