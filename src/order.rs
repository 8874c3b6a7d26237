//! Lexicographic orders on sequences, used for path segments (bytes) and
//! for whole paths (sequences of segments).
use core::cmp::Ordering;
use vstd::prelude::*;

verus! {

/// The order of two integers.
pub open spec fn int_cmp(x: int, y: int) -> Ordering {
    if x < y {
        Ordering::Less
    } else if x == y {
        Ordering::Equal
    } else {
        Ordering::Greater
    }
}

/// The lexicographic order on sequences induced by the element order `c`:
/// the first position where the elements differ decides, and a proper
/// prefix comes before the longer sequence.
pub open spec fn lex_cmp<T>(a: Seq<T>, b: Seq<T>, c: spec_fn(T, T) -> Ordering) -> Ordering
    decreases a.len(),
{
    if a.len() == 0 {
        if b.len() == 0 {
            Ordering::Equal
        } else {
            Ordering::Less
        }
    } else if b.len() == 0 {
        Ordering::Greater
    } else if c(a[0], b[0]) != Ordering::Equal {
        c(a[0], b[0])
    } else {
        lex_cmp(a.drop_first(), b.drop_first(), c)
    }
}

/// `c` is a strict total order: `Equal` exactly on equal values,
/// antisymmetric and transitive.
pub open spec fn is_total_order<T>(c: spec_fn(T, T) -> Ordering) -> bool {
    &&& forall|x: T, y: T| #[trigger] c(x, y) == Ordering::Equal <==> x == y
    &&& forall|x: T, y: T| #[trigger] c(x, y) == Ordering::Less <==> c(y, x) == Ordering::Greater
    &&& forall|x: T, y: T, z: T|
        #![trigger c(x, y), c(y, z)]
        c(x, y) == Ordering::Less && c(y, z) == Ordering::Less ==> c(x, z) == Ordering::Less
}

/// The order of bytes by value.
pub open spec fn byte_order() -> spec_fn(u8, u8) -> Ordering {
    |x: u8, y: u8| int_cmp(x as int, y as int)
}

/// The order of path segments: byte-wise lexicographic.
pub open spec fn segment_cmp(a: Seq<u8>, b: Seq<u8>) -> Ordering {
    lex_cmp(a, b, byte_order())
}

pub open spec fn segment_order() -> spec_fn(Seq<u8>, Seq<u8>) -> Ordering {
    |a: Seq<u8>, b: Seq<u8>| segment_cmp(a, b)
}

/// The order of paths: segment-wise lexicographic, a path before the paths
/// that extend it.
pub open spec fn path_cmp(a: Seq<Seq<u8>>, b: Seq<Seq<u8>>) -> Ordering {
    lex_cmp(a, b, segment_order())
}

pub open spec fn path_order() -> spec_fn(Seq<Seq<u8>>, Seq<Seq<u8>>) -> Ordering {
    |a: Seq<Seq<u8>>, b: Seq<Seq<u8>>| path_cmp(a, b)
}

proof fn lemma_lex_equal<T>(a: Seq<T>, b: Seq<T>, c: spec_fn(T, T) -> Ordering)
    requires
        is_total_order(c),
    ensures
        lex_cmp(a, b, c) == Ordering::Equal <==> a == b,
    decreases a.len(),
{
    if a.len() == 0 || b.len() == 0 {
        if a.len() != b.len() {
            assert(a != b);
        } else {
            assert(a =~= b);
        }
    } else {
        lemma_lex_equal(a.drop_first(), b.drop_first(), c);
        if c(a[0], b[0]) == Ordering::Equal {
            assert(a[0] == b[0]);
            if a.drop_first() == b.drop_first() {
                assert forall|i: int| 0 <= i < a.len() implies a[i] == b[i] by {
                    if i > 0 {
                        assert(a[i] == a.drop_first()[i - 1]);
                        assert(b[i] == b.drop_first()[i - 1]);
                    }
                }
                assert(a =~= b);
            } else {
                assert(a != b);
            }
        } else {
            assert(a[0] != b[0]);
        }
    }
}

proof fn lemma_lex_antisym<T>(a: Seq<T>, b: Seq<T>, c: spec_fn(T, T) -> Ordering)
    requires
        is_total_order(c),
    ensures
        lex_cmp(a, b, c) == Ordering::Less <==> lex_cmp(b, a, c) == Ordering::Greater,
    decreases a.len(),
{
    if a.len() > 0 && b.len() > 0 {
        assert(c(a[0], b[0]) == Ordering::Equal <==> c(b[0], a[0]) == Ordering::Equal);
        lemma_lex_antisym(a.drop_first(), b.drop_first(), c);
    }
}

proof fn lemma_lex_trans<T>(a: Seq<T>, b: Seq<T>, d: Seq<T>, c: spec_fn(T, T) -> Ordering)
    requires
        is_total_order(c),
        lex_cmp(a, b, c) == Ordering::Less,
        lex_cmp(b, d, c) == Ordering::Less,
    ensures
        lex_cmp(a, d, c) == Ordering::Less,
    decreases a.len(),
{
    if a.len() > 0 && b.len() > 0 && d.len() > 0 {
        let (x, y, z) = (a[0], b[0], d[0]);
        if c(x, y) == Ordering::Equal && c(y, z) == Ordering::Equal {
            lemma_lex_trans(a.drop_first(), b.drop_first(), d.drop_first(), c);
        }
        if c(x, y) == Ordering::Equal && c(y, z) == Ordering::Less {
            assert(x == y);
        }
        if c(x, y) == Ordering::Less && c(y, z) == Ordering::Equal {
            assert(y == z);
        }
    }
}

/// The lexicographic order induced by a total order is a total order.
pub proof fn lemma_lex_total_order<T>(c: spec_fn(T, T) -> Ordering)
    requires
        is_total_order(c),
    ensures
        is_total_order(|a: Seq<T>, b: Seq<T>| lex_cmp(a, b, c)),
{
    let l = |a: Seq<T>, b: Seq<T>| lex_cmp(a, b, c);
    assert forall|x: Seq<T>, y: Seq<T>| #[trigger] l(x, y) == Ordering::Equal <==> x == y by {
        lemma_lex_equal(x, y, c);
    }
    assert forall|x: Seq<T>, y: Seq<T>| #[trigger]
        l(x, y) == Ordering::Less <==> l(y, x) == Ordering::Greater by {
        lemma_lex_antisym(x, y, c);
    }
    assert forall|x: Seq<T>, y: Seq<T>, z: Seq<T>|
        #![trigger l(x, y), l(y, z)]
        l(x, y) == Ordering::Less && l(y, z) == Ordering::Less implies l(x, z)
        == Ordering::Less by {
        lemma_lex_trans(x, y, z, c);
    }
}

/// Bytes, path segments and paths are each totally ordered.
pub proof fn lemma_orders_total()
    ensures
        is_total_order(byte_order()),
        is_total_order(segment_order()),
        is_total_order(path_order()),
{
    lemma_lex_total_order(byte_order());
    assert(segment_order() == (|a: Seq<u8>, b: Seq<u8>| lex_cmp(a, b, byte_order())));
    lemma_lex_total_order(segment_order());
    assert(path_order() == (|a: Seq<Seq<u8>>, b: Seq<Seq<u8>>| lex_cmp(a, b, segment_order())));
}

} // verus!
