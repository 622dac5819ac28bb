use vstd::prelude::*;

use crate::candidates::{
    candidate_items, candidates_get, candidates_insert, candidates_len, candidates_new, Candidate,
    CandidateList,
};
use crate::intersection::{IntersectionData, RayIntersection};
use crate::math::{box_hit, AxisAlignedBox};
use crate::vector::{abs, Dist, Vec3, COORD_LIMIT};

pub mod laws;

verus! {

/// Half-extent of the root cube used by `OctTree::intersect`. With one world
/// unit taken as `2 * ROOT_EXTENT` lattice steps, the tree spans the unit cube
/// centered at the origin, and nineteen levels halve exactly.
pub const ROOT_EXTENT: i64 = 524288;

/// A child of an octree node: a solid cell carrying a payload, or a subtree.
pub enum OctTreeElement<M> {
    Leaf(M),
    Tree(Box<OctTree<M>>),
}

/// An octree node: one optional child per octant, in the order of
/// `octant_sign`. The node's center and half-extents are given at query time.
/// `new_from_childs` makes exactly eight entries; a missing entry counts as
/// an empty octant and entries past the eighth are never read.
pub struct OctTree<M> {
    pub childs: Vec<Option<OctTreeElement<M>>>,
}

/// A predicate over box-level hits that decides which candidate subtrees a
/// ray iterator descends into.
pub trait BoxFilter {
    spec fn accepts(&self, hit: IntersectionData<()>) -> bool;

    fn accept(&self, hit: &IntersectionData<()>) -> (r: bool)
        ensures
            r == self.accepts(*hit),
    ;
}

/// The filter that accepts every candidate.
#[derive(Clone, Copy, Debug, PartialEq, Eq, Structural)]
pub struct AcceptAll;

impl BoxFilter for AcceptAll {
    open spec fn accepts(&self, hit: IntersectionData<()>) -> bool {
        true
    }

    fn accept(&self, hit: &IntersectionData<()>) -> (r: bool) {
        true
    }
}

/// Accepts the candidates that the ray enters no later than `limit`, as a
/// shadow ray does with the distance to its light.
#[derive(Clone, Copy, Debug, PartialEq, Eq, Structural)]
pub struct EntryNotAfter {
    pub limit: Dist,
}

impl BoxFilter for EntryNotAfter {
    open spec fn accepts(&self, hit: IntersectionData<()>) -> bool {
        !hit.min.after(self.limit)
    }

    fn accept(&self, hit: &IntersectionData<()>) -> (r: bool) {
        !hit.min.is_after(&self.limit)
    }
}

/// Sign of octant `k` along `axis`: x flips with bit 0, z with bit 1, y with bit 2.
pub open spec fn octant_sign(k: int, axis: int) -> int {
    let bit = if axis == 0 { k % 2 } else if axis == 1 { (k / 4) % 2 } else { (k / 2) % 2 };
    if bit == 1 { 1 } else { -1 }
}

/// Half-extents of every child: half the parent's, rounded down.
pub open spec fn child_extents(extents: Vec3) -> Vec3 {
    Vec3 { x: (extents.x / 2) as i64, y: (extents.y / 2) as i64, z: (extents.z / 2) as i64 }
}

/// Center of the child in octant `k`.
pub open spec fn child_pos(pos: Vec3, extents: Vec3, k: int) -> Vec3 {
    let c = child_extents(extents);
    Vec3 {
        x: (pos.x + octant_sign(k, 0) * c.x) as i64,
        y: (pos.y + octant_sign(k, 1) * c.y) as i64,
        z: (pos.z + octant_sign(k, 2) * c.z) as i64,
    }
}

/// A node frame whose descendants' frames all stay within the coordinate limit.
pub open spec fn frame_in_range(pos: Vec3, extents: Vec3) -> bool {
    &&& extents.non_negative()
    &&& abs(pos.x as int) + extents.x <= COORD_LIMIT
    &&& abs(pos.y as int) + extents.y <= COORD_LIMIT
    &&& abs(pos.z as int) + extents.z <= COORD_LIMIT
}

/// A query whose arithmetic is exact at every level of the tree.
pub open spec fn query_in_range(pos: Vec3, extents: Vec3, origin: Vec3, direction: Vec3) -> bool {
    &&& frame_in_range(pos, extents)
    &&& origin.within(COORD_LIMIT as int)
    &&& direction.within(COORD_LIMIT as int)
}

impl<M> OctTree<M> {
    /// The child in octant `k`, if any.
    pub open spec fn child(self, k: int) -> Option<OctTreeElement<M>> {
        if 0 <= k < 8 && k < self.childs.len() {
            self.childs@[k]
        } else {
            None
        }
    }
}

/// The box-level hit of the child in octant `k`, if that child is present.
pub open spec fn child_box_hit<M>(
    t: OctTree<M>,
    pos: Vec3,
    extents: Vec3,
    origin: Vec3,
    direction: Vec3,
    k: int,
) -> Option<IntersectionData<()>> {
    if t.child(k) is Some {
        box_hit(
            AxisAlignedBox { pos: child_pos(pos, extents, k), extents: child_extents(extents) },
            origin,
            direction,
        )
    } else {
        None
    }
}

pub open spec fn candidate_entry(c: Candidate) -> Dist {
    Dist { num: c.1, den: c.2 }
}

/// First position at or after `j` whose entry lies strictly after `e`.
pub open spec fn insertion_point(s: Seq<Candidate>, e: Dist, j: int) -> int
    decreases s.len() - j,
{
    if j < 0 || j >= s.len() {
        j
    } else if candidate_entry(s[j]).after(e) {
        j
    } else {
        insertion_point(s, e, j + 1)
    }
}

/// `c` placed after every candidate that does not enter later than it.
pub open spec fn insert_sorted(s: Seq<Candidate>, c: Candidate) -> Seq<Candidate> {
    s.insert(insertion_point(s, candidate_entry(c), 0), c)
}

/// The candidates among the first `n` octants: children present, whose box
/// the ray hits and whose box-level hit `filter` accepts, sorted by entry
/// distance, equal entries in octant order.
pub open spec fn sorted_candidates<M, F: BoxFilter>(
    t: OctTree<M>,
    pos: Vec3,
    extents: Vec3,
    origin: Vec3,
    direction: Vec3,
    filter: F,
    n: int,
) -> Seq<Candidate>
    decreases n,
{
    if n <= 0 {
        Seq::empty()
    } else {
        let s = sorted_candidates(t, pos, extents, origin, direction, filter, n - 1);
        match child_box_hit(t, pos, extents, origin, direction, n - 1) {
            Some(h) => if filter.accepts(h) {
                insert_sorted(s, ((n - 1) as u8, h.min.num, h.min.den))
            } else {
                s
            },
            None => s,
        }
    }
}

/// Nearest hit within an element placed at `pos` with half-extents `extents`:
/// a leaf is hit where its box is, carrying its payload.
pub open spec fn element_nearest<M>(
    e: OctTreeElement<M>,
    pos: Vec3,
    extents: Vec3,
    origin: Vec3,
    direction: Vec3,
) -> Option<IntersectionData<M>>
    decreases e, 0int,
{
    match e {
        OctTreeElement::Leaf(m) => match box_hit(
            AxisAlignedBox { pos, extents },
            origin,
            direction,
        ) {
            Some(h) => Some(h.replace_meta(m)),
            None => None,
        },
        OctTreeElement::Tree(b) => first_nearest(
            *b,
            pos,
            extents,
            origin,
            direction,
            sorted_candidates(*b, pos, extents, origin, direction, AcceptAll, 8),
            0,
        ),
    }
}

/// Going through the candidates `s` from position `i` on, the nearest hit of
/// the first child that has one.
pub open spec fn first_nearest<M>(
    t: OctTree<M>,
    pos: Vec3,
    extents: Vec3,
    origin: Vec3,
    direction: Vec3,
    s: Seq<Candidate>,
    i: int,
) -> Option<IntersectionData<M>>
    decreases t, s.len() - i,
{
    if i < 0 || i >= s.len() {
        None
    } else {
        let k = s[i].0 as int;
        let rest = first_nearest(t, pos, extents, origin, direction, s, i + 1);
        if 0 <= k < 8 && k < t.childs.len() {
            match t.childs@[k] {
                Some(e) => match element_nearest(
                    e,
                    child_pos(pos, extents, k),
                    child_extents(extents),
                    origin,
                    direction,
                ) {
                    Some(h) => Some(h),
                    None => rest,
                },
                None => rest,
            }
        } else {
            rest
        }
    }
}

/// Nearest hit in the tree: the octants whose boxes the ray hits are tried
/// in order of entry distance, and the first child with a hit gives it.
pub open spec fn tree_nearest<M>(
    t: OctTree<M>,
    pos: Vec3,
    extents: Vec3,
    origin: Vec3,
    direction: Vec3,
) -> Option<IntersectionData<M>> {
    first_nearest(
        t,
        pos,
        extents,
        origin,
        direction,
        sorted_candidates(t, pos, extents, origin, direction, AcceptAll, 8),
        0,
    )
}

/// Relies on `Vec::from` on an array: the same items in the same order.
#[verifier::external_body]
fn vec_from_array<T>(a: [T; 8]) -> (r: Vec<T>)
    ensures
        r@ == a@,
{
    Vec::from(a)
}

fn octant_sign_of(k: usize, axis: usize) -> (r: i64)
    requires
        k < 8,
        axis < 3,
    ensures
        r == octant_sign(k as int, axis as int),
{
    let bit = if axis == 0 {
        k % 2
    } else if axis == 1 {
        (k / 4) % 2
    } else {
        (k / 2) % 2
    };
    if bit == 1 {
        1
    } else {
        -1
    }
}

fn child_extents_of(extents: &Vec3) -> (r: Vec3)
    requires
        extents.non_negative(),
    ensures
        r == child_extents(*extents),
{
    Vec3 { x: extents.x / 2, y: extents.y / 2, z: extents.z / 2 }
}

/// `s * c` for a sign `s`.
fn signed(s: i64, c: i64) -> (r: i64)
    requires
        s == 1 || s == -1,
        0 <= c <= COORD_LIMIT,
    ensures
        r == s * c,
        abs(r as int) == c,
{
    if s == 1 {
        c
    } else {
        -c
    }
}

fn child_pos_of(pos: &Vec3, extents: &Vec3, k: usize) -> (r: Vec3)
    requires
        frame_in_range(*pos, *extents),
        k < 8,
    ensures
        r == child_pos(*pos, *extents, k as int),
        frame_in_range(r, child_extents(*extents)),
{
    let c = child_extents_of(extents);
    let dx = signed(octant_sign_of(k, 0), c.x);
    let dy = signed(octant_sign_of(k, 1), c.y);
    let dz = signed(octant_sign_of(k, 2), c.z);
    assert(abs(dz as int) <= extents.z / 2);
    Vec3 { x: pos.x + dx, y: pos.y + dy, z: pos.z + dz }
}

/// Position in `cands` at which a candidate entering at `e` keeps the list
/// sorted, after every candidate entering no later.
fn insertion_index(cands: &CandidateList, e: &Dist) -> (r: usize)
    ensures
        r == insertion_point(candidate_items(*cands), *e, 0),
        r <= candidate_items(*cands).len(),
{
    let ghost s = candidate_items(*cands);
    let n = candidates_len(cands);
    let mut j: usize = 0;
    while j < n
        invariant
            s == candidate_items(*cands),
            n == s.len(),
            j <= n,
            insertion_point(s, *e, 0) == insertion_point(s, *e, j as int),
        decreases n - j,
    {
        let c = candidates_get(cands, j);
        let d = Dist { num: c.1, den: c.2 };
        if d.is_after(e) {
            return j;
        }
        j = j + 1;
    }
    j
}

impl<M> OctTree<M> {
    /// A node holding `childs[k]` in octant `k`.
    pub fn new_from_childs(childs: [Option<OctTreeElement<M>>; 8]) -> (r: Self)
        ensures
            r.childs.len() == 8,
            forall|k: int| 0 <= k < 8 ==> #[trigger] r.child(k) == childs[k],
    {
        let v = vec_from_array(childs);
        OctTree { childs: v }
    }
}

impl<M: Copy> OctTreeElement<M> {
    /// Nearest hit within this element placed at `pos` with half-extents `extents`.
    pub fn intersect_in_place(&self, pos: Vec3, extents: Vec3, origin: Vec3, direction: Vec3) -> (r:
        Option<IntersectionData<M>>)
        requires
            query_in_range(pos, extents, origin, direction),
        ensures
            r == element_nearest(*self, pos, extents, origin, direction),
        decreases self,
    {
        match self {
            OctTreeElement::Leaf(m) => {
                let b = AxisAlignedBox { pos, extents };
                match b.intersect(origin, direction) {
                    Some(h) => Some(IntersectionData::new(h.min, h.max, h.in_normal, h.out_normal, *m)),
                    None => None,
                }
            },
            OctTreeElement::Tree(t) => t.intersect_in_place(pos, extents, origin, direction),
        }
    }
}

impl<M> OctTree<M> {
    /// The box-level candidates of this node, sorted as `sorted_candidates` says.
    fn candidate_list<F: BoxFilter>(
        &self,
        pos: Vec3,
        extents: Vec3,
        origin: Vec3,
        direction: Vec3,
        filter: &F,
    ) -> (r: CandidateList)
        requires
            query_in_range(pos, extents, origin, direction),
        ensures
            candidate_items(r) == sorted_candidates(
                *self,
                pos,
                extents,
                origin,
                direction,
                *filter,
                8,
            ),
    {
        let cext = child_extents_of(&extents);
        let mut cands = candidates_new();
        let mut k: usize = 0;
        while k < 8
            invariant
                k <= 8,
                query_in_range(pos, extents, origin, direction),
                cext == child_extents(extents),
                candidate_items(cands) == sorted_candidates(
                    *self,
                    pos,
                    extents,
                    origin,
                    direction,
                    *filter,
                    k as int,
                ),
            decreases 8 - k,
        {
            if k < self.childs.len() && self.childs[k].is_some() {
                let cpos = child_pos_of(&pos, &extents, k);
                let b = AxisAlignedBox { pos: cpos, extents: cext };
                match b.intersect(origin, direction) {
                    Some(h) => {
                        if filter.accept(&h) {
                            let j = insertion_index(&cands, &h.min);
                            candidates_insert(&mut cands, j, (k as u8, h.min.num, h.min.den));
                        }
                    },
                    None => {},
                }
            }
            k = k + 1;
        }
        cands
    }
}

impl<M: Copy> OctTree<M> {
    /// Nearest hit in this tree placed at `pos` with half-extents `extents`.
    pub fn intersect_in_place(&self, pos: Vec3, extents: Vec3, origin: Vec3, direction: Vec3) -> (r:
        Option<IntersectionData<M>>)
        requires
            query_in_range(pos, extents, origin, direction),
        ensures
            r == tree_nearest(*self, pos, extents, origin, direction),
        decreases self,
    {
        let cext = child_extents_of(&extents);
        let cands = self.candidate_list(pos, extents, origin, direction, &AcceptAll);
        let ghost s = candidate_items(cands);
        let n = candidates_len(&cands);
        let mut i: usize = 0;
        while i < n
            invariant
                i <= n,
                n == s.len(),
                s == candidate_items(cands),
                query_in_range(pos, extents, origin, direction),
                cext == child_extents(extents),
                tree_nearest(*self, pos, extents, origin, direction) == first_nearest(
                    *self,
                    pos,
                    extents,
                    origin,
                    direction,
                    s,
                    i as int,
                ),
            decreases n - i,
        {
            let c = candidates_get(&cands, i);
            let k = c.0 as usize;
            if k < 8 && k < self.childs.len() {
                match &self.childs[k] {
                    Some(e) => {
                        let cpos = child_pos_of(&pos, &extents, k);
                        match e.intersect_in_place(cpos, cext, origin, direction) {
                            Some(h) => {
                                return Some(h);
                            },
                            None => {},
                        }
                    },
                    None => {},
                }
            }
            i = i + 1;
        }
        None
    }
}

/// Nearest hit in the tree spanning the cube centered at the origin with
/// half-extent `ROOT_EXTENT`.
impl<M: Copy> RayIntersection for OctTree<M> {
    type Meta = M;

    open spec fn ray_in_range(&self, origin: Vec3, direction: Vec3) -> bool {
        origin.within(COORD_LIMIT as int) && direction.within(COORD_LIMIT as int)
    }

    open spec fn ray_hit(&self, origin: Vec3, direction: Vec3) -> Option<IntersectionData<M>> {
        tree_nearest(
            *self,
            Vec3 { x: 0, y: 0, z: 0 },
            Vec3 { x: ROOT_EXTENT, y: ROOT_EXTENT, z: ROOT_EXTENT },
            origin,
            direction,
        )
    }

    fn intersect(&self, origin: Vec3, direction: Vec3) -> (r: Option<IntersectionData<M>>) {
        let pos = Vec3 { x: 0, y: 0, z: 0 };
        let extents = Vec3 { x: ROOT_EXTENT, y: ROOT_EXTENT, z: ROOT_EXTENT };
        self.intersect_in_place(pos, extents, origin, direction)
    }
}

/// Every hit that a ray iterator yields for an element placed at `pos` with
/// half-extents `extents`, in order: a leaf yields its own hit, a subtree the
/// hits of its candidates one candidate after another.
pub open spec fn element_hits<M, F: BoxFilter>(
    e: OctTreeElement<M>,
    pos: Vec3,
    extents: Vec3,
    origin: Vec3,
    direction: Vec3,
    filter: F,
) -> Seq<IntersectionData<M>>
    decreases e, 0int,
{
    match e {
        OctTreeElement::Leaf(m) => match box_hit(
            AxisAlignedBox { pos, extents },
            origin,
            direction,
        ) {
            Some(h) => seq![h.replace_meta(m)],
            None => Seq::empty(),
        },
        OctTreeElement::Tree(b) => candidate_hits(
            *b,
            pos,
            extents,
            origin,
            direction,
            filter,
            sorted_candidates(*b, pos, extents, origin, direction, filter, 8),
            0,
        ),
    }
}

/// The hits of the children named by the candidates `s` from position `i`
/// on, each child's hits before those of the next.
pub open spec fn candidate_hits<M, F: BoxFilter>(
    t: OctTree<M>,
    pos: Vec3,
    extents: Vec3,
    origin: Vec3,
    direction: Vec3,
    filter: F,
    s: Seq<Candidate>,
    i: int,
) -> Seq<IntersectionData<M>>
    decreases t, s.len() - i,
{
    if i < 0 || i >= s.len() {
        Seq::empty()
    } else {
        let k = s[i].0 as int;
        let rest = candidate_hits(t, pos, extents, origin, direction, filter, s, i + 1);
        if 0 <= k < 8 && k < t.childs.len() {
            match t.childs@[k] {
                Some(e) => element_hits(
                    e,
                    child_pos(pos, extents, k),
                    child_extents(extents),
                    origin,
                    direction,
                    filter,
                ) + rest,
                None => rest,
            }
        } else {
            rest
        }
    }
}

/// The hits of the candidates from `i` on are those of the candidates `i..j`
/// followed by those from `j` on.
proof fn lemma_candidate_hits_split<M, F: BoxFilter>(
    t: OctTree<M>,
    pos: Vec3,
    extents: Vec3,
    origin: Vec3,
    direction: Vec3,
    filter: F,
    s: Seq<Candidate>,
    i: int,
    j: int,
)
    requires
        0 <= i <= j <= s.len(),
    ensures
        candidate_hits(t, pos, extents, origin, direction, filter, s, i) =~= candidate_hits(
            t,
            pos,
            extents,
            origin,
            direction,
            filter,
            s.subrange(0, j),
            i,
        ) + candidate_hits(t, pos, extents, origin, direction, filter, s, j),
    decreases j - i,
{
    if i < j {
        lemma_candidate_hits_split(t, pos, extents, origin, direction, filter, s, i + 1, j);
        assert(s.subrange(0, j)[i] == s[i]);
    } else {
        assert(candidate_hits(t, pos, extents, origin, direction, filter, s.subrange(0, j), i)
            =~= Seq::empty());
    }
}

/// Every hit that `OctTree::build_ray_iterator` yields, in order.
pub open spec fn tree_hits<M, F: BoxFilter>(
    t: OctTree<M>,
    pos: Vec3,
    extents: Vec3,
    origin: Vec3,
    direction: Vec3,
    filter: F,
) -> Seq<IntersectionData<M>> {
    candidate_hits(
        t,
        pos,
        extents,
        origin,
        direction,
        filter,
        sorted_candidates(t, pos, extents, origin, direction, filter, 8),
        0,
    )
}

/// The iterator of one child being drained.
pub enum ElementIter<'a, M, F> {
    Leaf(Option<IntersectionData<M>>),
    Tree(RayIterator<'a, M, F>),
}

/// A lazy walk over the leaf hits of a node: the candidates not yet entered,
/// and the iterator of the one being drained.
pub struct RayIterator<'a, M, F> {
    tree: &'a OctTree<M>,
    pos: Vec3,
    extents: Vec3,
    origin: Vec3,
    direction: Vec3,
    filter: F,
    pending: CandidateList,
    next_pending: usize,
    active: Option<Box<ElementIter<'a, M, F>>>,
}

impl<'a, M, F: BoxFilter> ElementIter<'a, M, F> {
    pub open spec fn wf(self) -> bool {
        match self {
            ElementIter::Leaf(_) => true,
            ElementIter::Tree(it) => it.wf(),
        }
    }

    /// The iterator walks element `e`.
    pub closed spec fn wf_for(self, e: OctTreeElement<M>) -> bool
        decreases self,
    {
        match self {
            ElementIter::Leaf(_) => true,
            ElementIter::Tree(it) => {
                &&& e matches OctTreeElement::Tree(b)
                &&& *b == *it.tree
                &&& it.wf()
            },
        }
    }

    pub open spec fn remaining(self) -> Seq<IntersectionData<M>>
        decreases self,
    {
        match self {
            ElementIter::Leaf(h) => match h {
                Some(h) => seq![h],
                None => Seq::empty(),
            },
            ElementIter::Tree(it) => it.remaining(),
        }
    }
}

impl<'a, M, F: BoxFilter> RayIterator<'a, M, F> {
    /// The hits still to come, in the order they come.
    pub closed spec fn remaining(self) -> Seq<IntersectionData<M>>
        decreases self,
    {
        let now = match self.active {
            Some(a) => a.remaining(),
            None => Seq::empty(),
        };
        now + candidate_hits(
            *self.tree,
            self.pos,
            self.extents,
            self.origin,
            self.direction,
            self.filter,
            candidate_items(self.pending),
            self.next_pending as int,
        )
    }

    /// The tree this iterator walks.
    pub closed spec fn source(self) -> OctTree<M> {
        *self.tree
    }

    /// The candidates not yet entered.
    pub closed spec fn pending_candidates(self) -> Seq<Candidate> {
        let items = candidate_items(self.pending);
        items.subrange(self.next_pending as int, items.len() as int)
    }

    /// Every candidate of this node, in the order they are entered.
    pub closed spec fn candidates(self) -> Seq<Candidate> {
        candidate_items(self.pending)
    }

    /// How many of the candidates have been entered.
    pub closed spec fn entered(self) -> int {
        self.next_pending as int
    }

    /// The hits that the candidates at positions `i..j` contribute.
    pub closed spec fn hits_between(self, i: int, j: int) -> Seq<IntersectionData<M>> {
        candidate_hits(
            *self.tree,
            self.pos,
            self.extents,
            self.origin,
            self.direction,
            self.filter,
            candidate_items(self.pending).subrange(0, j),
            i,
        )
    }

    /// The hits still to come from the candidate being drained.
    pub closed spec fn active_hits(self) -> Seq<IntersectionData<M>> {
        match self.active {
            Some(a) => a.remaining(),
            None => Seq::empty(),
        }
    }

    /// The octant of the candidate entered last.
    closed spec fn active_octant(self) -> int {
        candidate_items(self.pending)[self.next_pending - 1].0 as int
    }

    pub closed spec fn wf(self) -> bool
        decreases self,
    {
        &&& query_in_range(self.pos, self.extents, self.origin, self.direction)
        &&& self.next_pending <= candidate_items(self.pending).len()
        &&& match self.active {
            None => true,
            Some(a) => {
                &&& self.next_pending >= 1
                &&& 0 <= self.active_octant() < self.tree.childs.len()
                &&& self.tree.childs@[self.active_octant()] matches Some(e)
                &&& a.wf_for(e)
            },
        }
    }
}

impl<'a, M: Copy, F: BoxFilter + Copy> RayIterator<'a, M, F> {
    /// Starts the iterator of the candidate at `next_pending`, or skips it
    /// when it names no child.
    fn enter_next(&mut self)
        requires
            old(self).wf(),
            old(self).active is None,
            old(self).next_pending < candidate_items(old(self).pending).len(),
        ensures
            final(self).wf(),
            final(self).tree == old(self).tree,
            final(self).pending == old(self).pending,
            final(self).next_pending == old(self).next_pending + 1,
            final(self).pos == old(self).pos,
            final(self).extents == old(self).extents,
            final(self).origin == old(self).origin,
            final(self).direction == old(self).direction,
            final(self).filter == old(self).filter,
            final(self).remaining() == old(self).remaining(),
    {
        let n = candidates_len(&self.pending);
        assert(self.next_pending < n);
        let c = candidates_get(&self.pending, self.next_pending);
        self.next_pending = self.next_pending + 1;
        let k = c.0 as usize;
        let t: &'a OctTree<M> = self.tree;
        if k < 8 && k < t.childs.len() {
            match &t.childs[k] {
                Some(e) => {
                    let cpos = child_pos_of(&self.pos, &self.extents, k);
                    let cext = child_extents_of(&self.extents);
                    let it = e.build_ray_iterator(
                        cpos,
                        cext,
                        self.origin,
                        self.direction,
                        self.filter,
                    );
                    self.active = Some(Box::new(it));
                },
                None => {},
            }
        }
        assert(self.remaining() =~= old(self).remaining());
    }

    /// How many candidates of this node are still to be entered.
    pub fn candidates_left(&self) -> (r: usize)
        requires
            self.wf(),
        ensures
            r == self.pending_candidates().len(),
    {
        candidates_len(&self.pending) - self.next_pending
    }

    /// The next hit, or none once every hit has been yielded.
    pub fn next(&mut self) -> (r: Option<IntersectionData<M>>)
        requires
            old(self).wf(),
        ensures
            final(self).wf(),
            final(self).source() == old(self).source(),
            match r {
                None => old(self).remaining().len() == 0 && final(self).remaining().len() == 0,
                Some(h) => {
                    &&& old(self).remaining().len() > 0
                    &&& h == old(self).remaining()[0]
                    &&& final(self).remaining() == old(self).remaining().drop_first()
                },
            },
            final(self).candidates() == old(self).candidates(),
            old(self).entered() <= final(self).entered(),
            old(self).active_hits().len() > 0 ==> final(self).entered() == old(self).entered(),
            final(self).entered() > old(self).entered() ==> old(self).hits_between(
                old(self).entered(),
                final(self).entered() - 1,
            ).len() == 0,
        decreases old(self).source(),
    {
        loop
            invariant
                self.wf(),
                self.tree == old(self).tree,
                self.remaining() == old(self).remaining(),
                self.pending == old(self).pending,
                self.pos == old(self).pos,
                self.extents == old(self).extents,
                self.origin == old(self).origin,
                self.direction == old(self).direction,
                self.filter == old(self).filter,
                old(self).next_pending <= self.next_pending,
                self.next_pending > old(self).next_pending ==> {
                    &&& old(self).active_hits().len() == 0
                    &&& old(self).hits_between(
                        old(self).next_pending as int,
                        self.next_pending - 1,
                    ).len() == 0
                },
            decreases 2 * (candidate_items(self.pending).len() - self.next_pending) + (if self.active is Some {
                1int
            } else {
                0int
            }),
        {
            match self.active.take() {
                Some(a) => {
                    match *a {
                        ElementIter::Leaf(h) => {
                            match h {
                                Some(h) => {
                                    self.active = Some(Box::new(ElementIter::Leaf(None)));
                                    assert(self.remaining() =~= old(self).remaining().drop_first());
                                    return Some(h);
                                },
                                None => {
                                    assert(self.remaining() =~= old(self).remaining());
                                },
                            }
                        },
                        ElementIter::Tree(mut it) => {
                            let r = it.next();
                            match r {
                                Some(h) => {
                                    self.active = Some(Box::new(ElementIter::Tree(it)));
                                    assert(self.remaining() =~= old(self).remaining().drop_first());
                                    return Some(h);
                                },
                                None => {
                                    assert(self.remaining() =~= old(self).remaining());
                                },
                            }
                        },
                    }
                },
                None => {
                    if self.next_pending >= candidates_len(&self.pending) {
                        return None;
                    }
                    proof {
                        lemma_candidate_hits_split(
                            *self.tree,
                            self.pos,
                            self.extents,
                            self.origin,
                            self.direction,
                            self.filter,
                            candidate_items(self.pending),
                            old(self).next_pending as int,
                            self.next_pending as int,
                        );
                    }
                    self.enter_next();
                },
            }
        }
    }
}

impl<'a, M: Copy, F: BoxFilter + Copy> ElementIter<'a, M, F> {
    /// The next hit, or none once every hit has been yielded.
    pub fn next(&mut self) -> (r: Option<IntersectionData<M>>)
        requires
            old(self).wf(),
        ensures
            final(self).wf(),
            match r {
                None => old(self).remaining().len() == 0 && final(self).remaining().len() == 0,
                Some(h) => {
                    &&& old(self).remaining().len() > 0
                    &&& h == old(self).remaining()[0]
                    &&& final(self).remaining() == old(self).remaining().drop_first()
                },
            },
    {
        let ghost before = self.remaining();
        let r = match self {
            ElementIter::Leaf(h) => h.take(),
            ElementIter::Tree(it) => it.next(),
        };
        assert(r is Some ==> self.remaining() =~= before.drop_first());
        r
    }
}

impl<M: Copy> OctTreeElement<M> {
    /// A lazy iterator over the leaf hits of this element placed at `pos`
    /// with half-extents `extents`.
    pub fn build_ray_iterator<'a, F: BoxFilter>(
        &'a self,
        pos: Vec3,
        extents: Vec3,
        origin: Vec3,
        direction: Vec3,
        filter: F,
    ) -> (r: ElementIter<'a, M, F>)
        requires
            query_in_range(pos, extents, origin, direction),
        ensures
            r.wf(),
            r.wf_for(*self),
            r.remaining() == element_hits(*self, pos, extents, origin, direction, filter),
    {
        match self {
            OctTreeElement::Leaf(m) => {
                let b = AxisAlignedBox { pos, extents };
                let h = match b.intersect(origin, direction) {
                    Some(h) => Some(
                        IntersectionData::new(h.min, h.max, h.in_normal, h.out_normal, *m),
                    ),
                    None => None,
                };
                ElementIter::Leaf(h)
            },
            OctTreeElement::Tree(b) => {
                let t: &'a OctTree<M> = &**b;
                ElementIter::Tree(t.build_ray_iterator(pos, extents, origin, direction, filter))
            },
        }
    }
}

impl<M> OctTree<M> {
    /// A lazy iterator over the leaf hits of this tree placed at `pos` with
    /// half-extents `extents`; subtrees whose box-level hit `filter` rejects
    /// are never entered.
    pub fn build_ray_iterator<'a, F: BoxFilter>(
        &'a self,
        pos: Vec3,
        extents: Vec3,
        origin: Vec3,
        direction: Vec3,
        filter: F,
    ) -> (r: RayIterator<'a, M, F>)
        requires
            query_in_range(pos, extents, origin, direction),
        ensures
            r.wf(),
            r.source() == *self,
            r.pending_candidates() == sorted_candidates(*self, pos, extents, origin, direction, filter, 8),
            r.remaining() == tree_hits(*self, pos, extents, origin, direction, filter),
    {
        let pending = self.candidate_list(pos, extents, origin, direction, &filter);
        RayIterator {
            tree: self,
            pos,
            extents,
            origin,
            direction,
            filter,
            pending,
            next_pending: 0,
            active: None,
        }
    }
}

} // verus!
