use graphics_learn::octree::{
    AcceptAll, EntryNotAfter, OctTree, OctTreeElement, RayIterator, ROOT_EXTENT,
};
use graphics_learn::{IntersectionData, RayIntersection};
use graphics_learn::vector::{Dist, Vec3};

fn v(x: i64, y: i64, z: i64) -> Vec3 {
    Vec3::new(x, y, z)
}

fn leaves(items: [Option<u32>; 8]) -> OctTree<u32> {
    let [a, b, c, d, e, f, g, h] = items;
    OctTree::new_from_childs([
        a.map(OctTreeElement::Leaf),
        b.map(OctTreeElement::Leaf),
        c.map(OctTreeElement::Leaf),
        d.map(OctTreeElement::Leaf),
        e.map(OctTreeElement::Leaf),
        f.map(OctTreeElement::Leaf),
        g.map(OctTreeElement::Leaf),
        h.map(OctTreeElement::Leaf),
    ])
}

fn drain<F: graphics_learn::octree::BoxFilter + Copy>(
    mut it: RayIterator<'_, u32, F>,
) -> Vec<IntersectionData<u32>> {
    let mut out = Vec::new();
    while let Some(h) = it.next() {
        out.push(h);
    }
    out
}

const POS: Vec3 = Vec3 { x: 0, y: 0, z: 0 };
const EXT: Vec3 = Vec3 { x: 8, y: 8, z: 8 };

#[test]
fn nearest_picks_first_box_along_ray() {
    let t = leaves([Some(10), Some(11), None, None, None, None, None, None]);
    let hit = t.intersect_in_place(POS, EXT, v(-20, -4, -4), v(1, 0, 0)).unwrap();
    assert_eq!(hit.meta, 10);
    assert_eq!(hit.min, Dist { num: 12, den: 1 });
    assert_eq!(hit.max, Dist { num: 20, den: 1 });
    assert_eq!(hit.in_normal, v(-1, 0, 0));
    assert_eq!(hit.out_normal, v(1, 0, 0));
}

#[test]
fn nearest_from_other_side() {
    let t = leaves([Some(10), Some(11), None, None, None, None, None, None]);
    let hit = t.intersect_in_place(POS, EXT, v(20, -4, -4), v(-1, 0, 0)).unwrap();
    assert_eq!(hit.meta, 11);
    assert_eq!(hit.min, Dist { num: 12, den: 1 });
}

#[test]
fn nearest_misses_empty_octants() {
    let t = leaves([Some(10), None, None, None, None, None, None, None]);
    assert!(t.intersect_in_place(POS, EXT, v(-20, 4, 4), v(1, 0, 0)).is_none());
    let empty = leaves([None; 8]);
    assert!(empty.intersect_in_place(POS, EXT, v(-20, -4, -4), v(1, 0, 0)).is_none());
}

#[test]
fn nearest_symmetric_under_octant_move() {
    let a = leaves([Some(5), None, None, None, None, None, None, None]);
    let ha = a.intersect_in_place(POS, EXT, v(-4, -4, -20), v(0, 0, 1)).unwrap();
    let b = leaves([None, None, None, None, None, None, None, Some(5)]);
    let hb = b.intersect_in_place(POS, EXT, v(4, 4, 20), v(0, 0, -1)).unwrap();
    assert_eq!(ha.meta, hb.meta);
    assert_eq!(ha.min, hb.min);
    assert_eq!(ha.max, hb.max);
    assert_eq!(ha.in_normal, v(0, 0, -1));
    assert_eq!(hb.in_normal, v(0, 0, 1));
}

#[test]
fn nearest_in_nested_tree() {
    let inner = leaves([None, None, None, None, None, None, None, Some(3)]);
    let t = OctTree::new_from_childs([
        Some(OctTreeElement::Tree(Box::new(inner))),
        None,
        None,
        None,
        None,
        None,
        None,
        None,
    ]);
    let hit = t.intersect_in_place(POS, EXT, v(-20, -2, -2), v(1, 0, 0)).unwrap();
    assert_eq!(hit.meta, 3);
    assert_eq!(hit.min, Dist { num: 16, den: 1 });
    assert_eq!(hit.max, Dist { num: 20, den: 1 });
}

#[test]
fn nested_miss_falls_through_to_farther_sibling() {
    // The ray crosses octant 0's box but misses the only leaf inside it.
    let inner = leaves([None, None, None, None, None, None, None, Some(3)]);
    let t = OctTree::new_from_childs([
        Some(OctTreeElement::Tree(Box::new(inner))),
        Some(OctTreeElement::Leaf(9)),
        None,
        None,
        None,
        None,
        None,
        None,
    ]);
    let hit = t.intersect_in_place(POS, EXT, v(-20, -6, -6), v(1, 0, 0)).unwrap();
    assert_eq!(hit.meta, 9);
    assert_eq!(hit.min, Dist { num: 20, den: 1 });
}

#[test]
fn root_query_uses_unit_cube() {
    let t = leaves([None, None, None, None, None, None, None, Some(1)]);
    let half = ROOT_EXTENT / 2;
    let hit = t.intersect(v(half, half, -1000000), v(0, 0, 1)).unwrap();
    assert_eq!(hit.meta, 1);
    assert_eq!(hit.min, Dist { num: 1000000, den: 1 });
    assert_eq!(hit.max, Dist { num: 1000000 + ROOT_EXTENT, den: 1 });
}

#[test]
fn shared_boundary_ray_counts_each_leaf_once() {
    // y = 0 is the face shared by octants 0 and 4.
    let t = leaves([Some(0), None, None, None, Some(4), None, None, None]);
    let hit = t.intersect_in_place(POS, EXT, v(-20, 0, -4), v(1, 0, 0)).unwrap();
    assert_eq!(hit.meta, 0);
    let all = drain(t.build_ray_iterator(POS, EXT, v(-20, 0, -4), v(1, 0, 0), AcceptAll));
    let metas: Vec<u32> = all.iter().map(|h| h.meta).collect();
    assert_eq!(metas, vec![0, 4]);
}

#[test]
fn iterator_yields_in_entry_order() {
    let t = leaves([Some(10), Some(11), None, None, None, None, None, None]);
    let all = drain(t.build_ray_iterator(POS, EXT, v(20, -4, -4), v(-1, 0, 0), AcceptAll));
    let metas: Vec<u32> = all.iter().map(|h| h.meta).collect();
    assert_eq!(metas, vec![11, 10]);
    assert_eq!(all[0].min, Dist { num: 12, den: 1 });
    assert_eq!(all[1].min, Dist { num: 20, den: 1 });
}

#[test]
fn unfiltered_iterator_matches_children() {
    let items = [Some(10), Some(11), None, Some(13), None, None, None, None];
    let t = leaves(items);
    let origin = v(-20, -4, -4);
    let direction = v(4, 0, 1);
    let mut from_iter = drain(t.build_ray_iterator(POS, EXT, origin, direction, AcceptAll));
    let centers = [
        v(-4, -4, -4),
        v(4, -4, -4),
        v(-4, -4, 4),
        v(4, -4, 4),
        v(-4, 4, -4),
        v(4, 4, -4),
        v(-4, 4, 4),
        v(4, 4, 4),
    ];
    let mut from_children = Vec::new();
    for k in 0..8 {
        if let Some(m) = items[k] {
            let e = OctTreeElement::Leaf(m);
            if let Some(h) = e.intersect_in_place(centers[k], v(4, 4, 4), origin, direction) {
                from_children.push(h);
            }
        }
    }
    assert!(from_children.len() >= 2);
    from_iter.sort_by_key(|h| h.meta);
    from_children.sort_by_key(|h| h.meta);
    assert_eq!(from_iter, from_children);
}

#[test]
fn filter_rejecting_later_candidates_stops_after_one() {
    let t = leaves([Some(10), Some(11), None, None, None, None, None, None]);
    let filter = EntryNotAfter { limit: Dist { num: 15, den: 1 } };
    let it = t.build_ray_iterator(POS, EXT, v(-20, -4, -4), v(1, 0, 0), filter);
    assert_eq!(it.candidates_left(), 1);
    let all = drain(it);
    assert_eq!(all.len(), 1);
    assert_eq!(all[0].meta, 10);
}

#[test]
fn filter_rejecting_everything_yields_nothing() {
    let t = leaves([Some(10), Some(11), None, None, None, None, None, None]);
    let filter = EntryNotAfter { limit: Dist { num: 1, den: 1 } };
    let it = t.build_ray_iterator(POS, EXT, v(-20, -4, -4), v(1, 0, 0), filter);
    assert_eq!(it.candidates_left(), 0);
    assert!(drain(it).is_empty());
}

#[test]
fn iterator_descends_lazily_into_subtrees() {
    let inner = leaves([Some(1), Some(2), None, None, None, None, None, None]);
    let t = OctTree::new_from_childs([
        Some(OctTreeElement::Tree(Box::new(inner))),
        Some(OctTreeElement::Leaf(9)),
        None,
        None,
        None,
        None,
        None,
        None,
    ]);
    let mut it = t.build_ray_iterator(POS, EXT, v(-20, -6, -6), v(1, 0, 0), AcceptAll);
    assert_eq!(it.candidates_left(), 2);
    let first = it.next().unwrap();
    assert_eq!(first.meta, 1);
    assert_eq!(it.candidates_left(), 1);
    assert_eq!(it.next().unwrap().meta, 2);
    assert_eq!(it.next().unwrap().meta, 9);
    assert!(it.next().is_none());
    assert!(it.next().is_none());
}

#[test]
fn element_iterator_of_leaf() {
    let e = OctTreeElement::Leaf(7u32);
    let mut it = e.build_ray_iterator(v(0, 0, 0), v(1, 1, 1), v(-5, 0, 0), v(1, 0, 0), AcceptAll);
    let h = it.next().unwrap();
    assert_eq!(h.meta, 7);
    assert_eq!(h.min, Dist { num: 4, den: 1 });
    assert!(it.next().is_none());
}

#[test]
fn repeated_queries_agree() {
    let inner = leaves([Some(1), None, None, Some(2), None, None, None, Some(3)]);
    let t = OctTree::new_from_childs([
        Some(OctTreeElement::Tree(Box::new(inner))),
        Some(OctTreeElement::Leaf(9)),
        None,
        None,
        None,
        None,
        None,
        Some(OctTreeElement::Leaf(4)),
    ]);
    let origin = v(-20, -3, -7);
    let direction = v(5, 1, 2);
    let a = t.intersect_in_place(POS, EXT, origin, direction);
    let b = t.intersect_in_place(POS, EXT, origin, direction);
    assert!(a.is_some());
    assert_eq!(a, b);
    let x = drain(t.build_ray_iterator(POS, EXT, origin, direction, AcceptAll));
    let y = drain(t.build_ray_iterator(POS, EXT, origin, direction, AcceptAll));
    assert_eq!(x, y);
}

#[test]
fn nearest_unchanged_when_leaf_and_ray_move_together() {
    let a = leaves([Some(5), None, None, None, None, None, None, None]);
    let b = leaves([None, None, None, None, None, None, None, Some(5)]);
    let direction = v(3, 1, 2);
    let ha = a.intersect_in_place(POS, EXT, v(-20, -6, -9), direction).unwrap();
    let hb = b.intersect_in_place(POS, EXT, v(-12, 2, -1), direction).unwrap();
    assert_eq!(ha, hb);
    let moved = b.intersect_in_place(v(-8, -8, -8), EXT, v(-20, -6, -9), direction).unwrap();
    assert_eq!(ha, moved);
}

#[test]
fn filter_applies_inside_subtrees() {
    let inner = leaves([Some(1), Some(2), None, None, None, None, None, None]);
    let t = OctTree::new_from_childs([
        Some(OctTreeElement::Tree(Box::new(inner))),
        Some(OctTreeElement::Leaf(9)),
        None,
        None,
        None,
        None,
        None,
        None,
    ]);
    // Inner leaves enter at 12 and 16, the outer leaf at 20.
    let filter = EntryNotAfter { limit: Dist { num: 14, den: 1 } };
    let all = drain(t.build_ray_iterator(POS, EXT, v(-20, -6, -6), v(1, 0, 0), filter));
    let metas: Vec<u32> = all.iter().map(|h| h.meta).collect();
    assert_eq!(metas, vec![1]);
}

#[test]
fn odd_extents_round_children_down() {
    let t = leaves([None, None, None, None, None, None, None, Some(6)]);
    let ext = v(9, 9, 9);
    // Child half-extent 4, child center (4, 4, 4): the box spans x in [0, 8].
    let hit = t.intersect_in_place(POS, ext, v(-20, 4, 4), v(1, 0, 0)).unwrap();
    assert_eq!(hit.min, Dist { num: 20, den: 1 });
    assert_eq!(hit.max, Dist { num: 28, den: 1 });
}

#[test]
fn diagonal_ray_through_edges_picks_nearer_leaf() {
    // Octant 5 is entered at 3 through its edge; octant 1 is only grazed at 5.
    let t = leaves([None, Some(1), None, None, None, Some(5), None, None]);
    let ext = v(2, 2, 2);
    let hit = t.intersect_in_place(POS, ext, v(5, 5, -1), v(-1, -1, 0)).unwrap();
    assert_eq!(hit.meta, 5);
    assert_eq!(hit.min, Dist { num: 3, den: 1 });
    assert_eq!(hit.max, Dist { num: 5, den: 1 });
    let all = drain(t.build_ray_iterator(POS, ext, v(5, 5, -1), v(-1, -1, 0), AcceptAll));
    let metas: Vec<u32> = all.iter().map(|h| h.meta).collect();
    assert_eq!(metas, vec![5, 1]);
}

#[test]
fn diagonal_ray_through_node_center() {
    let t = leaves([Some(0), None, None, None, None, None, None, Some(7)]);
    let ext = v(2, 2, 2);
    let hit = t.intersect_in_place(POS, ext, v(5, 5, 5), v(-1, -1, -1)).unwrap();
    assert_eq!(hit.meta, 7);
    assert_eq!(hit.min, Dist { num: 3, den: 1 });
    assert_eq!(hit.max, Dist { num: 5, den: 1 });
    let all = drain(t.build_ray_iterator(POS, ext, v(5, 5, 5), v(-1, -1, -1), AcceptAll));
    assert_eq!(all.len(), 2);
    assert_eq!(all[0].meta, 7);
    assert_eq!(all[1].meta, 0);
    assert_eq!(all[1].min, Dist { num: 5, den: 1 });
    assert_eq!(all[1].max, Dist { num: 7, den: 1 });
}
