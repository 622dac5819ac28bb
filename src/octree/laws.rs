//! Laws of the octree queries, proved over their specifications.
use vstd::multiset::Multiset;
use vstd::prelude::*;

use super::{
    candidate_entry, child_box_hit, candidate_hits, child_extents, child_pos, element_hits,
    element_nearest, first_nearest, insertion_point, octant_sign, sorted_candidates, tree_hits,
    tree_nearest, AcceptAll, BoxFilter, OctTree, OctTreeElement, frame_in_range, insert_sorted,
    query_in_range,
};
use crate::candidates::Candidate;
use crate::intersection::IntersectionData;
use crate::math::{box_hit, lemma_box_hit_ordered, AxisAlignedBox};
use crate::vector::{abs, Dist, Vec3, COORD_LIMIT};

verus! {

/// The nearest hit of the child in octant `k` alone, queried in its own box.
pub open spec fn child_nearest<M>(
    t: OctTree<M>,
    pos: Vec3,
    extents: Vec3,
    origin: Vec3,
    direction: Vec3,
    k: int,
) -> Option<IntersectionData<M>> {
    match t.child(k) {
        Some(e) => element_nearest(e, child_pos(pos, extents, k), child_extents(extents), origin, direction),
        None => None,
    }
}

/// The candidate entry that octant `k` contributes, if any.
pub open spec fn candidate_of<M, F: BoxFilter>(
    t: OctTree<M>,
    pos: Vec3,
    extents: Vec3,
    origin: Vec3,
    direction: Vec3,
    filter: F,
    k: int,
) -> Option<Candidate> {
    match child_box_hit(t, pos, extents, origin, direction, k) {
        Some(h) => if filter.accepts(h) {
            Some((k as u8, h.min.num, h.min.den))
        } else {
            None
        },
        None => None,
    }
}

proof fn lemma_insertion_point_bounds(s: Seq<Candidate>, e: Dist, j: int)
    requires
        0 <= j <= s.len(),
    ensures
        j <= insertion_point(s, e, j) <= s.len(),
    decreases s.len() - j,
{
    if j < s.len() && !candidate_entry(s[j]).after(e) {
        lemma_insertion_point_bounds(s, e, j + 1);
    }
}

proof fn lemma_insert_contains(s: Seq<Candidate>, j: int, c: Candidate, x: Candidate)
    requires
        0 <= j <= s.len(),
    ensures
        s.insert(j, c).contains(x) <==> s.contains(x) || x == c,
{
    broadcast use vstd::seq_lib::lemma_seq_concat_contains_all_elements;
    broadcast use vstd::seq_lib::lemma_seq_contains_after_push;

    let a = s.subrange(0, j);
    let b = s.subrange(j, s.len() as int);
    assert(s =~= a + b);
}

/// The sorted candidates hold exactly the candidates of the first `n` octants.
proof fn lemma_sorted_candidates_members<M, F: BoxFilter>(
    t: OctTree<M>,
    pos: Vec3,
    extents: Vec3,
    origin: Vec3,
    direction: Vec3,
    filter: F,
    n: int,
    x: Candidate,
)
    requires
        0 <= n <= 8,
    ensures
        sorted_candidates(t, pos, extents, origin, direction, filter, n).contains(x) <==> exists|k: int|
            0 <= k < n && #[trigger] candidate_of(t, pos, extents, origin, direction, filter, k) == Some(x),
    decreases n,
{
    if n > 0 {
        lemma_sorted_candidates_members(t, pos, extents, origin, direction, filter, n - 1, x);
        let s = sorted_candidates(t, pos, extents, origin, direction, filter, n - 1);
        match candidate_of(t, pos, extents, origin, direction, filter, n - 1) {
            Some(c) => {
                let j = insertion_point(s, candidate_entry(c), 0);
                lemma_insertion_point_bounds(s, candidate_entry(c), 0);
                lemma_insert_contains(s, j, c, x);
            },
            None => {},
        }
        if exists|k: int|
            0 <= k < n && #[trigger] candidate_of(t, pos, extents, origin, direction, filter, k) == Some(x) {
            let k = choose|k: int|
                0 <= k < n && #[trigger] candidate_of(t, pos, extents, origin, direction, filter, k) == Some(x);
            if k < n - 1 {
                assert(exists|k2: int|
                    0 <= k2 < n - 1 && #[trigger] candidate_of(t, pos, extents, origin, direction, filter, k2)
                        == Some(x));
            }
        }
    }
}

/// The hits that the child in octant `k` contributes to a ray iterator.
spec fn hits_of_octant<M, F: BoxFilter>(
    t: OctTree<M>,
    pos: Vec3,
    extents: Vec3,
    origin: Vec3,
    direction: Vec3,
    filter: F,
    k: int,
) -> Seq<IntersectionData<M>> {
    if 0 <= k < 8 && k < t.childs.len() {
        match t.childs@[k] {
            Some(e) => element_hits(
                e,
                child_pos(pos, extents, k),
                child_extents(extents),
                origin,
                direction,
                filter,
            ),
            None => Seq::empty(),
        }
    } else {
        Seq::empty()
    }
}

proof fn lemma_candidate_hits_members<M, F: BoxFilter>(
    t: OctTree<M>,
    pos: Vec3,
    extents: Vec3,
    origin: Vec3,
    direction: Vec3,
    filter: F,
    s: Seq<Candidate>,
    i: int,
    h: IntersectionData<M>,
)
    requires
        0 <= i <= s.len(),
    ensures
        candidate_hits(t, pos, extents, origin, direction, filter, s, i).contains(h) <==> exists|j: int|
            i <= j < s.len() && #[trigger] hits_of_octant(
                t,
                pos,
                extents,
                origin,
                direction,
                filter,
                s[j].0 as int,
            ).contains(h),
    decreases s.len() - i,
{
    broadcast use vstd::seq_lib::lemma_seq_concat_contains_all_elements;

    if i < s.len() {
        lemma_candidate_hits_members(t, pos, extents, origin, direction, filter, s, i + 1, h);
        let rest = candidate_hits(t, pos, extents, origin, direction, filter, s, i + 1);
        let here = hits_of_octant(t, pos, extents, origin, direction, filter, s[i].0 as int);
        assert(candidate_hits(t, pos, extents, origin, direction, filter, s, i) =~= here + rest);
        if exists|j: int|
            i <= j < s.len() && #[trigger] hits_of_octant(
                t,
                pos,
                extents,
                origin,
                direction,
                filter,
                s[j].0 as int,
            ).contains(h) {
            let j = choose|j: int|
                i <= j < s.len() && #[trigger] hits_of_octant(
                t,
                pos,
                extents,
                origin,
                direction,
                filter,
                s[j].0 as int,
            ).contains(h);
            if j > i {
                assert(exists|j2: int|
                    i + 1 <= j2 < s.len() && #[trigger] hits_of_octant(
                        t,
                        pos,
                        extents,
                        origin,
                        direction,
                        filter,
                        s[j2].0 as int,
                    ).contains(h));
            }
        }
    }
}

/// When every present child is a leaf, an unfiltered ray iterator yields, as
/// a set, exactly the hits that the children's own nearest-hit queries give.
pub proof fn lemma_unfiltered_hits_are_child_hits<M>(
    t: OctTree<M>,
    pos: Vec3,
    extents: Vec3,
    origin: Vec3,
    direction: Vec3,
    h: IntersectionData<M>,
)
    requires
        forall|k: int| 0 <= k < 8 ==> !(#[trigger] t.child(k) matches Some(OctTreeElement::Tree(_))),
    ensures
        tree_hits(t, pos, extents, origin, direction, AcceptAll).contains(h) <==> exists|k: int|
            0 <= k < 8 && #[trigger] child_nearest(t, pos, extents, origin, direction, k) == Some(h),
{
    let s = sorted_candidates(t, pos, extents, origin, direction, AcceptAll, 8);
    lemma_candidate_hits_members(t, pos, extents, origin, direction, AcceptAll, s, 0, h);
    assert forall|k: int| 0 <= k < 8 implies (#[trigger] hits_of_octant(
        t,
        pos,
        extents,
        origin,
        direction,
        AcceptAll,
        k,
    ).contains(h) <==> child_nearest(t, pos, extents, origin, direction, k) == Some(h)) by {
        if 0 <= k < 8 && k < t.childs.len() {
            match t.childs@[k] {
                Some(e) => {
                    assert(e is Leaf);
                    let b = box_hit(
                        child_box(pos, extents, k),
                        origin,
                        direction,
                    );
                    if b is Some {
                        let here = hits_of_octant(t, pos, extents, origin, direction, AcceptAll, k);
                        assert(here[0] == b.unwrap().replace_meta(e->Leaf_0));
                    }
                },
                None => {},
            }
        }
    }
    if tree_hits(t, pos, extents, origin, direction, AcceptAll).contains(h) {
        let j = choose|j: int|
            0 <= j < s.len() && #[trigger] hits_of_octant(
                t,
                pos,
                extents,
                origin,
                direction,
                AcceptAll,
                s[j].0 as int,
            ).contains(h);
        let c = s[j];
        assert(s.contains(c));
        lemma_sorted_candidates_members(t, pos, extents, origin, direction, AcceptAll, 8, c);
        let k = choose|k: int|
            0 <= k < 8 && #[trigger] candidate_of(t, pos, extents, origin, direction, AcceptAll, k) == Some(c);
        assert(k == c.0 as int);
        assert(child_nearest(t, pos, extents, origin, direction, k) == Some(h));
    }
    if exists|k: int| 0 <= k < 8 && #[trigger] child_nearest(t, pos, extents, origin, direction, k) == Some(h) {
        let k = choose|k: int| 0 <= k < 8 && #[trigger] child_nearest(t, pos, extents, origin, direction, k) == Some(h);
        let c = candidate_of(t, pos, extents, origin, direction, AcceptAll, k).unwrap();
        lemma_sorted_candidates_members(t, pos, extents, origin, direction, AcceptAll, 8, c);
        let j = choose|j: int| 0 <= j < s.len() && s[j] == c;
        assert(hits_of_octant(t, pos, extents, origin, direction, AcceptAll, s[j].0 as int).contains(h));
    }
}

/// Number of octants below `n` that contribute a candidate.
spec fn candidate_count<M, F: BoxFilter>(
    t: OctTree<M>,
    pos: Vec3,
    extents: Vec3,
    origin: Vec3,
    direction: Vec3,
    filter: F,
    n: int,
) -> int
    decreases n,
{
    if n <= 0 {
        0
    } else {
        candidate_count(t, pos, extents, origin, direction, filter, n - 1) + if candidate_of(
            t,
            pos,
            extents,
            origin,
            direction,
            filter,
            n - 1,
        ) is Some {
            1int
        } else {
            0int
        }
    }
}

proof fn lemma_sorted_candidates_len<M, F: BoxFilter>(
    t: OctTree<M>,
    pos: Vec3,
    extents: Vec3,
    origin: Vec3,
    direction: Vec3,
    filter: F,
    n: int,
)
    requires
        0 <= n,
    ensures
        sorted_candidates(t, pos, extents, origin, direction, filter, n).len() == candidate_count(
            t,
            pos,
            extents,
            origin,
            direction,
            filter,
            n,
        ),
    decreases n,
{
    if n > 0 {
        lemma_sorted_candidates_len(t, pos, extents, origin, direction, filter, n - 1);
        let s = sorted_candidates(t, pos, extents, origin, direction, filter, n - 1);
        match candidate_of(t, pos, extents, origin, direction, filter, n - 1) {
            Some(c) => {
                lemma_insertion_point_bounds(s, candidate_entry(c), 0);
            },
            None => {},
        }
    }
}

proof fn lemma_count_at_most_one<M, F: BoxFilter>(
    t: OctTree<M>,
    pos: Vec3,
    extents: Vec3,
    origin: Vec3,
    direction: Vec3,
    filter: F,
    n: int,
    k0: int,
)
    requires
        0 <= n,
        forall|k: int|
            0 <= k < n && #[trigger] candidate_of(t, pos, extents, origin, direction, filter, k) is Some
                ==> k == k0,
    ensures
        candidate_count(t, pos, extents, origin, direction, filter, n) <= (if 0 <= k0 < n { 1int } else { 0int }),
    decreases n,
{
    if n > 0 {
        lemma_count_at_most_one(t, pos, extents, origin, direction, filter, n - 1, k0);
    }
}

/// A ray iterator never queues a candidate whose box-level hit the filter
/// rejects; and when the filter accepts the box of at most one child and that
/// child is a leaf, the iterator yields at most one hit.
pub proof fn lemma_filter_prunes_candidates<M, F: BoxFilter>(
    t: OctTree<M>,
    pos: Vec3,
    extents: Vec3,
    origin: Vec3,
    direction: Vec3,
    filter: F,
    k0: int,
)
    requires
        0 <= k0 < 8,
        forall|k: int|
            0 <= k < 8 && (#[trigger] child_box_hit(t, pos, extents, origin, direction, k) matches Some(h)
                && filter.accepts(h)) ==> k == k0,
    ensures
        forall|c: Candidate|
            #[trigger] sorted_candidates(t, pos, extents, origin, direction, filter, 8).contains(c)
                ==> c.0 == k0,
        sorted_candidates(t, pos, extents, origin, direction, filter, 8).len() <= 1,
        !(t.child(k0) matches Some(OctTreeElement::Tree(_))) ==> tree_hits(
            t,
            pos,
            extents,
            origin,
            direction,
            filter,
        ).len() <= 1,
{
    let s = sorted_candidates(t, pos, extents, origin, direction, filter, 8);
    assert forall|c: Candidate| #[trigger] s.contains(c) implies c.0 == k0 by {
        lemma_sorted_candidates_members(t, pos, extents, origin, direction, filter, 8, c);
        let k = choose|k: int|
            0 <= k < 8 && #[trigger] candidate_of(t, pos, extents, origin, direction, filter, k) == Some(c);
        assert(child_box_hit(t, pos, extents, origin, direction, k) is Some);
    }
    assert forall|k: int|
        0 <= k < 8 && #[trigger] candidate_of(t, pos, extents, origin, direction, filter, k) is Some
            implies k == k0 by {
        assert(child_box_hit(t, pos, extents, origin, direction, k) is Some);
    }
    lemma_count_at_most_one(t, pos, extents, origin, direction, filter, 8, k0);
    lemma_sorted_candidates_len(t, pos, extents, origin, direction, filter, 8);
    if !(t.child(k0) matches Some(OctTreeElement::Tree(_))) {
        if s.len() == 1 {
            assert(s.contains(s[0]));
            let rest = candidate_hits(t, pos, extents, origin, direction, filter, s, 1);
            assert(rest.len() == 0);
            let here = hits_of_octant(t, pos, extents, origin, direction, filter, s[0].0 as int);
            assert(candidate_hits(t, pos, extents, origin, direction, filter, s, 0) =~= here + rest);
        }
    }
}

/// Queries are functions of the tree and the ray: two nearest-hit queries
/// with the same arguments give the same result, and two ray iterators built
/// from the same arguments yield the same hits in the same order.
pub proof fn lemma_queries_deterministic<M, F: BoxFilter>(
    t: OctTree<M>,
    pos: Vec3,
    extents: Vec3,
    origin: Vec3,
    direction: Vec3,
    filter: F,
    first: Option<IntersectionData<M>>,
    second: Option<IntersectionData<M>>,
    first_hits: Seq<IntersectionData<M>>,
    second_hits: Seq<IntersectionData<M>>,
)
    requires
        first == tree_nearest(t, pos, extents, origin, direction),
        second == tree_nearest(t, pos, extents, origin, direction),
        first_hits == tree_hits(t, pos, extents, origin, direction, filter),
        second_hits == tree_hits(t, pos, extents, origin, direction, filter),
    ensures
        first == second,
        first_hits == second_hits,
{
}

/// Box of the child in octant `k`.
pub open spec fn child_box(pos: Vec3, extents: Vec3, k: int) -> AxisAlignedBox {
    AxisAlignedBox { pos: child_pos(pos, extents, k), extents: child_extents(extents) }
}

/// The point lies in the open interior of the box.
pub open spec fn strictly_inside(b: AxisAlignedBox, p: Vec3) -> bool {
    &&& abs(p.x - b.pos.x) < b.extents.x
    &&& abs(p.y - b.pos.y) < b.extents.y
    &&& abs(p.z - b.pos.z) < b.extents.z
}

proof fn lemma_octant_bits(k: int)
    requires
        0 <= k < 8,
    ensures
        k == (if octant_sign(k, 0) == 1 { 1int } else { 0int }) + 2 * (if octant_sign(k, 2) == 1 {
            1int
        } else {
            0int
        }) + 4 * (if octant_sign(k, 1) == 1 { 1int } else { 0int }),
{
    assert(k == 0 || k == 1 || k == 2 || k == 3 || k == 4 || k == 5 || k == 6 || k == 7);
}

proof fn lemma_octant_of_signs(bx: int, by: int, bz: int)
    requires
        0 <= bx <= 1,
        0 <= by <= 1,
        0 <= bz <= 1,
    ensures
        octant_sign(bx + 2 * bz + 4 * by, 0) == (if bx == 1 { 1int } else { -1int }),
        octant_sign(bx + 2 * bz + 4 * by, 1) == (if by == 1 { 1int } else { -1int }),
        octant_sign(bx + 2 * bz + 4 * by, 2) == (if bz == 1 { 1int } else { -1int }),
{
}

/// With even half-extents the eight children tile their parent: a point lies
/// in the parent's box exactly when it lies in some child's box, and no point
/// lies strictly inside the boxes of two different children. The nearest-hit
/// query relies on this to stop at the first child with a hit.
#[verifier::spinoff_prover]
#[verifier::rlimit(40)]
pub proof fn lemma_children_tile_parent(pos: Vec3, extents: Vec3, p: Vec3)
    requires
        frame_in_range(pos, extents),
        extents.x % 2 == 0,
        extents.y % 2 == 0,
        extents.z % 2 == 0,
    ensures
        (AxisAlignedBox { pos, extents }).holds(p) <==> exists|k: int|
            0 <= k < 8 && (#[trigger] child_box(pos, extents, k)).holds(p),
        forall|k1: int, k2: int|
            0 <= k1 < 8 && 0 <= k2 < 8 && k1 != k2 ==> !(strictly_inside(
                #[trigger] child_box(pos, extents, k1),
                p,
            ) && strictly_inside(#[trigger] child_box(pos, extents, k2), p)),
{
    if (AxisAlignedBox { pos, extents }).holds(p) {
        let bx: int = if p.x >= pos.x { 1 } else { 0 };
        let by: int = if p.y >= pos.y { 1 } else { 0 };
        let bz: int = if p.z >= pos.z { 1 } else { 0 };
        lemma_octant_of_signs(bx, by, bz);
        let k = bx + 2 * bz + 4 * by;
        let c = child_extents(extents);
        let q = child_pos(pos, extents, k);
        let (sx, sy, sz) = (octant_sign(k, 0), octant_sign(k, 1), octant_sign(k, 2));
        assert(sx * c.x == if bx == 1 { c.x as int } else { -c.x });
        assert(sy * c.y == if by == 1 { c.y as int } else { -c.y });
        assert(sz * c.z == if bz == 1 { c.z as int } else { -c.z });
        assert(c.x * 2 == extents.x && c.y * 2 == extents.y && c.z * 2 == extents.z);
        assert(q.x == pos.x + octant_sign(k, 0) * c.x);
        assert(q.y == pos.y + octant_sign(k, 1) * c.y);
        assert(q.z == pos.z + octant_sign(k, 2) * c.z);
        assert(abs(p.x - q.x) <= c.x);
        assert(abs(p.y - q.y) <= c.y);
        assert(abs(p.z - q.z) <= c.z);
        assert(child_box(pos, extents, k).holds(p));
    }
    if exists|k: int| 0 <= k < 8 && (#[trigger] child_box(pos, extents, k)).holds(p) {
        let k = choose|k: int| 0 <= k < 8 && (#[trigger] child_box(pos, extents, k)).holds(p);
        assert(octant_sign(k, 0) == 1 || octant_sign(k, 0) == -1);
        assert(octant_sign(k, 1) == 1 || octant_sign(k, 1) == -1);
        assert(octant_sign(k, 2) == 1 || octant_sign(k, 2) == -1);
    }
    assert forall|k1: int, k2: int|
        0 <= k1 < 8 && 0 <= k2 < 8 && k1 != k2 implies !(strictly_inside(
            #[trigger] child_box(pos, extents, k1),
            p,
        ) && strictly_inside(#[trigger] child_box(pos, extents, k2), p)) by {
        lemma_octant_bits(k1);
        lemma_octant_bits(k2);
        assert(octant_sign(k1, 0) == 1 || octant_sign(k1, 0) == -1);
        assert(octant_sign(k1, 1) == 1 || octant_sign(k1, 1) == -1);
        assert(octant_sign(k1, 2) == 1 || octant_sign(k1, 2) == -1);
        assert(octant_sign(k2, 0) == 1 || octant_sign(k2, 0) == -1);
        assert(octant_sign(k2, 1) == 1 || octant_sign(k2, 1) == -1);
        assert(octant_sign(k2, 2) == 1 || octant_sign(k2, 2) == -1);
    }
}

/// A node whose only child is a leaf has that leaf's own nearest hit.
proof fn lemma_single_leaf_nearest<M>(
    t: OctTree<M>,
    pos: Vec3,
    extents: Vec3,
    origin: Vec3,
    direction: Vec3,
    k0: int,
    m: M,
)
    requires
        0 <= k0 < 8,
        t.child(k0) == Some(OctTreeElement::Leaf(m)),
        forall|k: int| 0 <= k < 8 && k != k0 ==> (#[trigger] t.child(k)) is None,
    ensures
        tree_nearest(t, pos, extents, origin, direction) == child_nearest(
            t,
            pos,
            extents,
            origin,
            direction,
            k0,
        ),
{
    let s = sorted_candidates(t, pos, extents, origin, direction, AcceptAll, 8);
    assert forall|k: int|
        0 <= k < 8 && (#[trigger] child_box_hit(t, pos, extents, origin, direction, k) matches Some(h)
            && AcceptAll.accepts(h)) implies k == k0 by {
        if k != k0 {
            assert(t.child(k) is None);
        }
    }
    lemma_filter_prunes_candidates(t, pos, extents, origin, direction, AcceptAll, k0);
    if s.len() == 1 {
        assert(s.contains(s[0]));
        assert(first_nearest(t, pos, extents, origin, direction, s, 1) is None);
    } else {
        assert(s.len() == 0);
        if let Some(c) = candidate_of(t, pos, extents, origin, direction, AcceptAll, k0) {
            lemma_sorted_candidates_members(t, pos, extents, origin, direction, AcceptAll, 8, c);
        }
    }
}

/// Moving the only leaf of a node from one octant to another does not change
/// the nearest hit, provided the leaf keeps its place relative to the ray's
/// origin: the node's center, or the ray, is moved along with it.
pub proof fn lemma_nearest_invariant_under_octant_move<M>(
    a: OctTree<M>,
    b: OctTree<M>,
    pos_a: Vec3,
    pos_b: Vec3,
    extents: Vec3,
    origin_a: Vec3,
    origin_b: Vec3,
    direction: Vec3,
    ka: int,
    kb: int,
    m: M,
)
    requires
        0 <= ka < 8,
        0 <= kb < 8,
        a.child(ka) == Some(OctTreeElement::Leaf(m)),
        b.child(kb) == Some(OctTreeElement::Leaf(m)),
        forall|k: int| 0 <= k < 8 && k != ka ==> (#[trigger] a.child(k)) is None,
        forall|k: int| 0 <= k < 8 && k != kb ==> (#[trigger] b.child(k)) is None,
        origin_a.minus(child_pos(pos_a, extents, ka)) == origin_b.minus(child_pos(pos_b, extents, kb)),
    ensures
        tree_nearest(a, pos_a, extents, origin_a, direction) == tree_nearest(
            b,
            pos_b,
            extents,
            origin_b,
            direction,
        ),
{
    lemma_single_leaf_nearest(a, pos_a, extents, origin_a, direction, ka, m);
    lemma_single_leaf_nearest(b, pos_b, extents, origin_b, direction, kb, m);
}

/// A node with no children has no candidates, no nearest hit and no hits.
pub proof fn lemma_empty_node<M, F: BoxFilter>(
    t: OctTree<M>,
    pos: Vec3,
    extents: Vec3,
    origin: Vec3,
    direction: Vec3,
    filter: F,
)
    requires
        forall|k: int| 0 <= k < 8 ==> (#[trigger] t.child(k)) is None,
    ensures
        sorted_candidates(t, pos, extents, origin, direction, filter, 8).len() == 0,
        tree_nearest(t, pos, extents, origin, direction) is None,
        tree_hits(t, pos, extents, origin, direction, filter).len() == 0,
{
    assert forall|k: int|
        0 <= k < 8 && (#[trigger] child_box_hit(t, pos, extents, origin, direction, k) matches Some(h)
            && filter.accepts(h)) implies k == 0 by {
        assert(t.child(k) is None);
    }
    assert forall|k: int|
        0 <= k < 8 && (#[trigger] child_box_hit(t, pos, extents, origin, direction, k) matches Some(h)
            && AcceptAll.accepts(h)) implies k == 0 by {
        assert(t.child(k) is None);
    }
    lemma_filter_prunes_candidates(t, pos, extents, origin, direction, filter, 0);
    lemma_filter_prunes_candidates(t, pos, extents, origin, direction, AcceptAll, 0);
    let s = sorted_candidates(t, pos, extents, origin, direction, filter, 8);
    let a = sorted_candidates(t, pos, extents, origin, direction, AcceptAll, 8);
    if s.len() == 1 {
        assert(s.contains(s[0]));
        lemma_sorted_candidates_members(t, pos, extents, origin, direction, filter, 8, s[0]);
        let k = choose|k: int|
            0 <= k < 8 && #[trigger] candidate_of(t, pos, extents, origin, direction, filter, k)
                == Some(s[0]);
        assert(t.child(k) is None);
    }
    if a.len() == 1 {
        assert(a.contains(a[0]));
        lemma_sorted_candidates_members(t, pos, extents, origin, direction, AcceptAll, 8, a[0]);
        let k = choose|k: int|
            0 <= k < 8 && #[trigger] candidate_of(t, pos, extents, origin, direction, AcceptAll, k)
                == Some(a[0]);
        assert(t.child(k) is None);
    }
}

proof fn lemma_element_first_hit<M>(
    e: OctTreeElement<M>,
    pos: Vec3,
    extents: Vec3,
    origin: Vec3,
    direction: Vec3,
)
    ensures
        element_hits(e, pos, extents, origin, direction, AcceptAll).len() > 0
            <==> element_nearest(e, pos, extents, origin, direction) is Some,
        element_nearest(e, pos, extents, origin, direction) matches Some(h) ==> element_hits(
            e,
            pos,
            extents,
            origin,
            direction,
            AcceptAll,
        )[0] == h,
    decreases e, 0int,
{
    if let OctTreeElement::Tree(b) = e {
        let s = sorted_candidates(*b, pos, extents, origin, direction, AcceptAll, 8);
        lemma_candidates_first_hit(*b, pos, extents, origin, direction, s, 0);
    }
}

proof fn lemma_candidates_first_hit<M>(
    t: OctTree<M>,
    pos: Vec3,
    extents: Vec3,
    origin: Vec3,
    direction: Vec3,
    s: Seq<Candidate>,
    i: int,
)
    ensures
        candidate_hits(t, pos, extents, origin, direction, AcceptAll, s, i).len() > 0
            <==> first_nearest(t, pos, extents, origin, direction, s, i) is Some,
        first_nearest(t, pos, extents, origin, direction, s, i) matches Some(h) ==> candidate_hits(
            t,
            pos,
            extents,
            origin,
            direction,
            AcceptAll,
            s,
            i,
        )[0] == h,
    decreases t, s.len() - i,
{
    if 0 <= i < s.len() {
        lemma_candidates_first_hit(t, pos, extents, origin, direction, s, i + 1);
        let k = s[i].0 as int;
        if 0 <= k < 8 && k < t.childs.len() {
            if let Some(e) = t.childs@[k] {
                lemma_element_first_hit(
                    e,
                    child_pos(pos, extents, k),
                    child_extents(extents),
                    origin,
                    direction,
                );
            }
        }
    }
}

/// The nearest-hit query and an unfiltered ray iterator agree on the first
/// hit: the iterator yields something exactly when there is a nearest hit,
/// and then the nearest hit comes first.
pub proof fn lemma_first_hit_is_nearest<M>(
    t: OctTree<M>,
    pos: Vec3,
    extents: Vec3,
    origin: Vec3,
    direction: Vec3,
)
    ensures
        tree_hits(t, pos, extents, origin, direction, AcceptAll).len() > 0 <==> tree_nearest(
            t,
            pos,
            extents,
            origin,
            direction,
        ) is Some,
        tree_nearest(t, pos, extents, origin, direction) matches Some(h) ==> tree_hits(
            t,
            pos,
            extents,
            origin,
            direction,
            AcceptAll,
        )[0] == h,
{
    let s = sorted_candidates(t, pos, extents, origin, direction, AcceptAll, 8);
    lemma_candidates_first_hit(t, pos, extents, origin, direction, s, 0);
}

/// What the child in octant `k` contributes to an unfiltered iterator.
spec fn octant_multiset<M>(
    t: OctTree<M>,
    pos: Vec3,
    extents: Vec3,
    origin: Vec3,
    direction: Vec3,
    k: int,
) -> Multiset<IntersectionData<M>> {
    hits_of_octant(t, pos, extents, origin, direction, AcceptAll, k).to_multiset()
}

/// What the children named by `q` contribute, together.
spec fn candidates_multiset<M>(
    t: OctTree<M>,
    pos: Vec3,
    extents: Vec3,
    origin: Vec3,
    direction: Vec3,
    q: Seq<Candidate>,
) -> Multiset<IntersectionData<M>>
    decreases q.len(),
{
    if q.len() == 0 {
        Multiset::empty()
    } else {
        octant_multiset(t, pos, extents, origin, direction, q[0].0 as int).add(
            candidates_multiset(t, pos, extents, origin, direction, q.drop_first()),
        )
    }
}

/// The nearest hits of the children in the first `n` octants, each counted
/// once per child that has one.
pub open spec fn child_nearest_multiset<M>(
    t: OctTree<M>,
    pos: Vec3,
    extents: Vec3,
    origin: Vec3,
    direction: Vec3,
    n: int,
) -> Multiset<IntersectionData<M>>
    decreases n,
{
    if n <= 0 {
        Multiset::empty()
    } else {
        let rest = child_nearest_multiset(t, pos, extents, origin, direction, n - 1);
        match child_nearest(t, pos, extents, origin, direction, n - 1) {
            Some(h) => rest.insert(h),
            None => rest,
        }
    }
}

proof fn lemma_candidate_hits_multiset<M>(
    t: OctTree<M>,
    pos: Vec3,
    extents: Vec3,
    origin: Vec3,
    direction: Vec3,
    s: Seq<Candidate>,
    i: int,
)
    requires
        0 <= i <= s.len(),
    ensures
        candidate_hits(t, pos, extents, origin, direction, AcceptAll, s, i).to_multiset()
            == candidates_multiset(t, pos, extents, origin, direction, s.subrange(i, s.len() as int)),
    decreases s.len() - i,
{
    broadcast use vstd::seq_lib::lemma_multiset_commutative;
    broadcast use vstd::seq_lib::group_to_multiset_ensures;

    if i == s.len() {
        assert(candidate_hits(t, pos, extents, origin, direction, AcceptAll, s, i) =~= Seq::empty());
        assert(s.subrange(i, s.len() as int).len() == 0);
        assert(Seq::<IntersectionData<M>>::empty().to_multiset() =~= Multiset::empty());
    } else {
        lemma_candidate_hits_multiset(t, pos, extents, origin, direction, s, i + 1);
        let rest = candidate_hits(t, pos, extents, origin, direction, AcceptAll, s, i + 1);
        let here = hits_of_octant(t, pos, extents, origin, direction, AcceptAll, s[i].0 as int);
        assert(candidate_hits(t, pos, extents, origin, direction, AcceptAll, s, i) =~= here + rest);
        let q = s.subrange(i, s.len() as int);
        assert(q.drop_first() =~= s.subrange(i + 1, s.len() as int));
        assert(q[0] == s[i]);
    }
}

proof fn lemma_candidates_multiset_concat<M>(
    t: OctTree<M>,
    pos: Vec3,
    extents: Vec3,
    origin: Vec3,
    direction: Vec3,
    a: Seq<Candidate>,
    b: Seq<Candidate>,
)
    ensures
        candidates_multiset(t, pos, extents, origin, direction, a + b) =~= candidates_multiset(
            t,
            pos,
            extents,
            origin,
            direction,
            a,
        ).add(candidates_multiset(t, pos, extents, origin, direction, b)),
    decreases a.len(),
{
    if a.len() == 0 {
        assert(a + b =~= b);
    } else {
        lemma_candidates_multiset_concat(t, pos, extents, origin, direction, a.drop_first(), b);
        assert((a + b).drop_first() =~= a.drop_first() + b);
        assert((a + b)[0] == a[0]);
    }
}

proof fn lemma_candidates_multiset_insert<M>(
    t: OctTree<M>,
    pos: Vec3,
    extents: Vec3,
    origin: Vec3,
    direction: Vec3,
    s: Seq<Candidate>,
    j: int,
    c: Candidate,
)
    requires
        0 <= j <= s.len(),
    ensures
        candidates_multiset(t, pos, extents, origin, direction, s.insert(j, c)) =~= candidates_multiset(
            t,
            pos,
            extents,
            origin,
            direction,
            s,
        ).add(octant_multiset(t, pos, extents, origin, direction, c.0 as int)),
{
    let a = s.subrange(0, j);
    let b = s.subrange(j, s.len() as int);
    let cb = seq![c] + b;
    assert(s.insert(j, c) =~= a + cb);
    assert(s =~= a + b);
    lemma_candidates_multiset_concat(t, pos, extents, origin, direction, a, cb);
    lemma_candidates_multiset_concat(t, pos, extents, origin, direction, a, b);
    assert(cb.drop_first() =~= b);
    assert(cb[0] == c);
}

/// The multiset the first `n` octants' candidates contribute.
spec fn candidate_octants_multiset<M>(
    t: OctTree<M>,
    pos: Vec3,
    extents: Vec3,
    origin: Vec3,
    direction: Vec3,
    n: int,
) -> Multiset<IntersectionData<M>>
    decreases n,
{
    if n <= 0 {
        Multiset::empty()
    } else {
        let rest = candidate_octants_multiset(t, pos, extents, origin, direction, n - 1);
        if candidate_of(t, pos, extents, origin, direction, AcceptAll, n - 1) is Some {
            rest.add(octant_multiset(t, pos, extents, origin, direction, n - 1))
        } else {
            rest
        }
    }
}

proof fn lemma_sorted_candidates_multiset<M>(
    t: OctTree<M>,
    pos: Vec3,
    extents: Vec3,
    origin: Vec3,
    direction: Vec3,
    n: int,
)
    requires
        0 <= n <= 8,
    ensures
        candidates_multiset(
            t,
            pos,
            extents,
            origin,
            direction,
            sorted_candidates(t, pos, extents, origin, direction, AcceptAll, n),
        ) == candidate_octants_multiset(t, pos, extents, origin, direction, n),
    decreases n,
{
    if n == 0 {
        assert(candidates_multiset(t, pos, extents, origin, direction, Seq::empty())
            =~= Multiset::empty());
    } else {
        lemma_sorted_candidates_multiset(t, pos, extents, origin, direction, n - 1);
        let s = sorted_candidates(t, pos, extents, origin, direction, AcceptAll, n - 1);
        if let Some(c) = candidate_of(t, pos, extents, origin, direction, AcceptAll, n - 1) {
            lemma_insertion_point_bounds(s, candidate_entry(c), 0);
            lemma_candidates_multiset_insert(
                t,
                pos,
                extents,
                origin,
                direction,
                s,
                insertion_point(s, candidate_entry(c), 0),
                c,
            );
            assert(c.0 as int == n - 1);
        }
    }
}

proof fn lemma_leaf_octants_multiset<M>(
    t: OctTree<M>,
    pos: Vec3,
    extents: Vec3,
    origin: Vec3,
    direction: Vec3,
    n: int,
)
    requires
        0 <= n <= 8,
        forall|k: int| 0 <= k < 8 ==> !(#[trigger] t.child(k) matches Some(OctTreeElement::Tree(_))),
    ensures
        candidate_octants_multiset(t, pos, extents, origin, direction, n) =~= child_nearest_multiset(
            t,
            pos,
            extents,
            origin,
            direction,
            n,
        ),
    decreases n,
{
    broadcast use vstd::seq_lib::group_to_multiset_ensures;

    if n > 0 {
        lemma_leaf_octants_multiset(t, pos, extents, origin, direction, n - 1);
        let k = n - 1;
        assert(!(t.child(k) matches Some(OctTreeElement::Tree(_))));
        let here = hits_of_octant(t, pos, extents, origin, direction, AcceptAll, k);
        match child_nearest(t, pos, extents, origin, direction, k) {
            Some(h) => {
                assert(here =~= seq![h]);
                assert(seq![h].drop_first() =~= Seq::<IntersectionData<M>>::empty());
                assert(Seq::<IntersectionData<M>>::empty().to_multiset() =~= Multiset::empty());
                assert(Multiset::<IntersectionData<M>>::empty().insert(h).add(Multiset::empty())
                    =~= Multiset::empty().insert(h));
            },
            None => {},
        }
    }
}

/// When every present child is a leaf, an unfiltered ray iterator yields
/// exactly the hits that the children's own nearest-hit queries give, each
/// as often as it comes from a child.
pub proof fn lemma_unfiltered_hits_multiset<M>(
    t: OctTree<M>,
    pos: Vec3,
    extents: Vec3,
    origin: Vec3,
    direction: Vec3,
)
    requires
        forall|k: int| 0 <= k < 8 ==> !(#[trigger] t.child(k) matches Some(OctTreeElement::Tree(_))),
    ensures
        tree_hits(t, pos, extents, origin, direction, AcceptAll).to_multiset()
            == child_nearest_multiset(t, pos, extents, origin, direction, 8),
{
    let s = sorted_candidates(t, pos, extents, origin, direction, AcceptAll, 8);
    lemma_candidate_hits_multiset(t, pos, extents, origin, direction, s, 0);
    assert(s.subrange(0, s.len() as int) =~= s);
    lemma_sorted_candidates_multiset(t, pos, extents, origin, direction, 8);
    lemma_leaf_octants_multiset(t, pos, extents, origin, direction, 8);
}

/// A child's frame stays in range when its parent's does.
proof fn lemma_child_frame_in_range(pos: Vec3, extents: Vec3, k: int)
    requires
        frame_in_range(pos, extents),
        0 <= k < 8,
    ensures
        frame_in_range(child_pos(pos, extents, k), child_extents(extents)),
{
    assert(octant_sign(k, 0) == 1 || octant_sign(k, 0) == -1);
    assert(octant_sign(k, 1) == 1 || octant_sign(k, 1) == -1);
    assert(octant_sign(k, 2) == 1 || octant_sign(k, 2) == -1);
}

/// `e < a <= b` gives `e < b` for well formed distances.
proof fn lemma_after_then_not_after(e: Dist, a: Dist, b: Dist)
    requires
        e.wf(),
        a.wf(),
        b.wf(),
        a.after(e),
        !a.after(b),
    ensures
        b.after(e),
{
    let (en, ed, an, ad, bn, bd) = (
        e.num as int,
        e.den as int,
        a.num as int,
        a.den as int,
        b.num as int,
        b.den as int,
    );
    assert(bn * ed > en * bd) by (nonlinear_arith)
        requires
            ed > 0,
            ad > 0,
            bd > 0,
            an * ed > en * ad,
            an * bd <= bn * ad,
    {
        assert(an * ed * bd > en * ad * bd);
        assert(an * bd * ed <= bn * ad * ed);
        assert(bn * ed * ad > en * bd * ad);
    }
}

proof fn lemma_insertion_point_split(s: Seq<Candidate>, e: Dist, j: int)
    requires
        0 <= j <= s.len(),
    ensures
        forall|q: int|
            j <= q < insertion_point(s, e, j) ==> !(#[trigger] candidate_entry(s[q])).after(e),
        insertion_point(s, e, j) < s.len() ==> candidate_entry(s[insertion_point(s, e, j)]).after(
            e,
        ),
    decreases s.len() - j,
{
    if j < s.len() && !candidate_entry(s[j]).after(e) {
        lemma_insertion_point_split(s, e, j + 1);
    }
}

/// Candidates sorted by entry distance, equal entries in octant order, each
/// octant at most once.
pub open spec fn sorted_by_entry(s: Seq<Candidate>) -> bool {
    &&& forall|i: int, j: int|
        0 <= i < j < s.len() ==> !(#[trigger] candidate_entry(s[i])).after(
            #[trigger] candidate_entry(s[j]),
        )
    &&& forall|i: int, j: int|
        0 <= i < j < s.len() && candidate_entry(s[i]).same_value(candidate_entry(s[j])) ==> (
        #[trigger] s[i]).0 < (#[trigger] s[j]).0
    &&& forall|i: int, j: int| 0 <= i < j < s.len() ==> (#[trigger] s[i]).0 != (#[trigger] s[j]).0
}

/// Inserting a candidate of a new, larger octant where `insert_sorted` puts
/// it keeps the order.
#[verifier::spinoff_prover]
proof fn lemma_insert_keeps_sorted(s: Seq<Candidate>, c: Candidate, n: int)
    requires
        sorted_by_entry(s),
        forall|i: int|
            0 <= i < s.len() ==> {
                let x = #[trigger] s[i];
                &&& 0 <= x.0 < n - 1
                &&& candidate_entry(x).wf()
            },
        c.0 == n - 1,
        candidate_entry(c).wf(),
    ensures
        sorted_by_entry(insert_sorted(s, c)),
        forall|i: int|
            0 <= i < insert_sorted(s, c).len() ==> {
                let x = #[trigger] insert_sorted(s, c)[i];
                &&& 0 <= x.0 < n
                &&& candidate_entry(x).wf()
            },
{
    let e = candidate_entry(c);
    let p = insertion_point(s, e, 0);
    lemma_insertion_point_bounds(s, e, 0);
    lemma_insertion_point_split(s, e, 0);
    let r = s.insert(p, c);
    assert(r == insert_sorted(s, c));
    s.insert_ensures(p, c);
    assert forall|i: int| 0 <= i < r.len() implies {
        let x = #[trigger] r[i];
        &&& 0 <= x.0 < n
        &&& candidate_entry(x).wf()
    } by {
        if i > p {
            assert(r[i] == s[i - 1]);
        }
    }
    assert forall|i: int, j: int|
        0 <= i < j < r.len() implies !(#[trigger] candidate_entry(r[i])).after(
        #[trigger] candidate_entry(r[j]),
    ) && (candidate_entry(r[i]).same_value(candidate_entry(r[j])) ==> r[i].0 < r[j].0) && r[i].0
        != r[j].0 by {
        if j < p {
        } else if j == p {
            assert(!candidate_entry(s[i]).after(e));
        } else if i < p {
            assert(r[j] == s[j - 1]);
        } else if i == p {
            assert(r[j] == s[j - 1]);
            if p < j - 1 {
                assert(!candidate_entry(s[p]).after(candidate_entry(s[j - 1])));
            }
            lemma_after_then_not_after(e, candidate_entry(s[p]), candidate_entry(s[j - 1]));
        } else {
            assert(r[i] == s[i - 1]);
            assert(r[j] == s[j - 1]);
        }
    }
}

proof fn lemma_sorted_candidates_sorted_upto<M, F: BoxFilter>(
    t: OctTree<M>,
    pos: Vec3,
    extents: Vec3,
    origin: Vec3,
    direction: Vec3,
    filter: F,
    n: int,
)
    requires
        query_in_range(pos, extents, origin, direction),
        0 <= n <= 8,
    ensures
        sorted_by_entry(sorted_candidates(t, pos, extents, origin, direction, filter, n)),
        forall|i: int|
            0 <= i < sorted_candidates(t, pos, extents, origin, direction, filter, n).len() ==> {
                let c = #[trigger] sorted_candidates(t, pos, extents, origin, direction, filter, n)[i];
                &&& 0 <= c.0 < n
                &&& candidate_entry(c).wf()
            },
    decreases n,
{
    if n > 0 {
        lemma_sorted_candidates_sorted_upto(t, pos, extents, origin, direction, filter, n - 1);
        let s = sorted_candidates(t, pos, extents, origin, direction, filter, n - 1);
        if let Some(c) = candidate_of(t, pos, extents, origin, direction, filter, n - 1) {
            let e = candidate_entry(c);
            let k = n - 1;
            lemma_child_frame_in_range(pos, extents, k);
            lemma_box_hit_ordered(
                AxisAlignedBox { pos: child_pos(pos, extents, k), extents: child_extents(extents) },
                origin,
                direction,
            );
            assert(e.wf());
            lemma_insert_keeps_sorted(s, c, n);
        }
    }
}

/// The candidates a node tries are exactly those of its eight octants, each
/// once, sorted by entry distance with equal entries in octant order.
pub proof fn lemma_sorted_candidates_sorted<M, F: BoxFilter>(
    t: OctTree<M>,
    pos: Vec3,
    extents: Vec3,
    origin: Vec3,
    direction: Vec3,
    filter: F,
    c: Candidate,
)
    requires
        query_in_range(pos, extents, origin, direction),
    ensures
        sorted_by_entry(sorted_candidates(t, pos, extents, origin, direction, filter, 8)),
        sorted_candidates(t, pos, extents, origin, direction, filter, 8).contains(c) <==> exists|k: int|
            0 <= k < 8 && #[trigger] candidate_of(t, pos, extents, origin, direction, filter, k)
                == Some(c),
{
    lemma_sorted_candidates_sorted_upto(t, pos, extents, origin, direction, filter, 8);
    lemma_sorted_candidates_members(t, pos, extents, origin, direction, filter, 8, c);
}

} // verus!
