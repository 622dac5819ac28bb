use vstd::prelude::*;

use crate::intersection::{IntersectionData, RayIntersection};
use crate::vector::{abs, lemma_product_bound, Dist, Vec3, COORD_LIMIT, LOCAL_LIMIT};

verus! {

/// Numerator of the shrink factor applied to a face hit before the
/// containment test; the factor is `SHRINK_NUM / SHRINK_DEN`, just below one,
/// so that a hit on a face shared by two adjacent boxes counts for both.
pub const SHRINK_NUM: i128 = 9999;

pub const SHRINK_DEN: i128 = 10000;

/// The plane of points `p` with `normal . p == dist`.
#[derive(Clone, Copy, Debug, PartialEq, Eq, Structural)]
pub struct Plain {
    pub normal: Vec3,
    pub dist: i64,
}

pub open spec fn dot(a: Vec3, b: Vec3) -> int {
    (a.x as int) * (b.x as int) + (a.y as int) * (b.y as int) + (a.z as int) * (b.z as int)
}

/// `normal . (normal * dist - origin)`: the ray parameter times `normal . direction`.
pub open spec fn plane_numerator(p: Plain, origin: Vec3) -> int {
    (p.normal.x as int) * ((p.normal.x as int) * (p.dist as int) - (origin.x as int))
        + (p.normal.y as int) * ((p.normal.y as int) * (p.dist as int) - (origin.y as int))
        + (p.normal.z as int) * ((p.normal.z as int) * (p.dist as int) - (origin.z as int))
}

/// Where the ray meets the plane: none when the direction is parallel to it,
/// else the one distance `numerator / (normal . direction)` as both entry and
/// exit, entering along the normal and leaving against it.
pub open spec fn plane_hit(p: Plain, origin: Vec3, direction: Vec3) -> Option<IntersectionData<()>> {
    let den = dot(p.normal, direction);
    let num = plane_numerator(p, origin);
    if den == 0 {
        None
    } else {
        let t = if den < 0 {
            Dist { num: -num as i64, den: -den as i64 }
        } else {
            Dist { num: num as i64, den: den as i64 }
        };
        Some(
            IntersectionData {
                min: t,
                max: t,
                in_normal: p.normal,
                out_normal: p.normal.negated(),
                meta: (),
            },
        )
    }
}

/// Inputs for which the plane test's arithmetic is exact.
pub open spec fn plane_query_in_range(p: Plain, origin: Vec3, direction: Vec3) -> bool {
    &&& p.normal.is_unit_bounded()
    &&& abs(p.dist as int) <= LOCAL_LIMIT
    &&& origin.within(LOCAL_LIMIT as int)
    &&& direction.within(LOCAL_LIMIT as int)
}

/// `n * v` for `n` in -1..=1.
fn unit_mul(n: i64, v: i64) -> (r: i64)
    requires
        abs(n as int) <= 1,
        abs(v as int) <= 8 * LOCAL_LIMIT,
    ensures
        r == n * v,
        abs(r as int) <= abs(v as int),
{
    if n == 0 {
        assert(n * v == 0);
        0
    } else if n > 0 {
        assert(n == 1);
        assert(n * v == v);
        v
    } else {
        assert(n == -1);
        assert(n * v == -v);
        -v
    }
}

/// `n . v` for a normal with components in -1..=1.
fn unit_dot(n: &Vec3, v: &Vec3) -> (r: i64)
    requires
        n.is_unit_bounded(),
        v.within(LOCAL_LIMIT as int),
    ensures
        r == dot(*n, *v),
        abs(r as int) <= 3 * LOCAL_LIMIT,
{
    let dx = unit_mul(n.x, v.x);
    let dy = unit_mul(n.y, v.y);
    let dz = unit_mul(n.z, v.z);
    dx + dy + dz
}

/// `n * (n * dist - o)` for `n` in -1..=1.
fn numerator_term(n: i64, dist: i64, o: i64) -> (r: i64)
    requires
        abs(n as int) <= 1,
        abs(dist as int) <= LOCAL_LIMIT,
        abs(o as int) <= LOCAL_LIMIT,
    ensures
        r == (n as int) * ((n as int) * (dist as int) - (o as int)),
        abs(r as int) <= 2 * LOCAL_LIMIT,
{
    let a = unit_mul(n, dist);
    unit_mul(n, a - o)
}

impl Plain {
    fn numerator(&self, origin: &Vec3) -> (r: i64)
        requires
            self.normal.is_unit_bounded(),
            abs(self.dist as int) <= LOCAL_LIMIT,
            origin.within(LOCAL_LIMIT as int),
        ensures
            r == plane_numerator(*self, *origin),
            abs(r as int) <= 6 * LOCAL_LIMIT,
    {
        let n = self.normal;
        let px = numerator_term(n.x, self.dist, origin.x);
        let py = numerator_term(n.y, self.dist, origin.y);
        let pz = numerator_term(n.z, self.dist, origin.z);
        px + py + pz
    }

    /// The same plane with the normal reversed.
    pub fn invert(self) -> (r: Self)
        requires
            self.normal.within(LOCAL_LIMIT as int),
        ensures
            r == (Plain { normal: self.normal.negated(), dist: self.dist }),
    {
        Plain { normal: self.normal.neg(), dist: self.dist }
    }
}

/// The distance a plane test returns is well formed and bounded.
proof fn lemma_plane_hit_bounded(p: Plain, origin: Vec3, direction: Vec3)
    requires
        plane_query_in_range(p, origin, direction),
    ensures
        (plane_hit(p, origin, direction) matches Some(h) ==> {
            &&& h.min.wf()
            &&& h.min.den <= 3 * LOCAL_LIMIT
            &&& abs(h.min.num as int) <= 6 * LOCAL_LIMIT
        }),
{
    let l = LOCAL_LIMIT as int;
    let n = p.normal;
    lemma_product_bound(n.x as int, direction.x as int, 1, l);
    lemma_product_bound(n.y as int, direction.y as int, 1, l);
    lemma_product_bound(n.z as int, direction.z as int, 1, l);
    lemma_product_bound(n.x as int, p.dist as int, 1, l);
    lemma_product_bound(n.y as int, p.dist as int, 1, l);
    lemma_product_bound(n.z as int, p.dist as int, 1, l);
    let tx = (n.x as int) * (p.dist as int) - (origin.x as int);
    let ty = (n.y as int) * (p.dist as int) - (origin.y as int);
    let tz = (n.z as int) * (p.dist as int) - (origin.z as int);
    lemma_product_bound(n.x as int, tx, 1, 2 * l);
    lemma_product_bound(n.y as int, ty, 1, 2 * l);
    lemma_product_bound(n.z as int, tz, 1, 2 * l);
}

impl RayIntersection for Plain {
    type Meta = ();

    open spec fn ray_in_range(&self, origin: Vec3, direction: Vec3) -> bool {
        plane_query_in_range(*self, origin, direction)
    }

    open spec fn ray_hit(&self, origin: Vec3, direction: Vec3) -> Option<IntersectionData<()>> {
        plane_hit(*self, origin, direction)
    }

    fn intersect(&self, origin: Vec3, direction: Vec3) -> (r: Option<IntersectionData<()>>) {
        let n = self.normal;
        let dot_dir = unit_dot(&n, &direction);
        if dot_dir == 0 {
            return None;
        }
        let dot = self.numerator(&origin);
        let t = if dot_dir < 0 {
            Dist { num: -dot, den: -dot_dir }
        } else {
            Dist { num: dot, den: dot_dir }
        };
        Some(IntersectionData::new(t, t, n, n.neg(), ()))
    }
}

/// A box given by its center and its half-extents along each axis.
#[derive(Clone, Copy, Debug, PartialEq, Eq, Structural)]
pub struct AxisAlignedBox {
    pub pos: Vec3,
    pub extents: Vec3,
}

/// Outward normal of face `k`: the low faces along x, y, z, then the high ones.
pub open spec fn face_normal(k: int) -> Vec3 {
    if k == 0 {
        Vec3 { x: -1i64, y: 0, z: 0 }
    } else if k == 1 {
        Vec3 { x: 0, y: -1i64, z: 0 }
    } else if k == 2 {
        Vec3 { x: 0, y: 0, z: -1i64 }
    } else if k == 3 {
        Vec3 { x: 1, y: 0, z: 0 }
    } else if k == 4 {
        Vec3 { x: 0, y: 1, z: 0 }
    } else {
        Vec3 { x: 0, y: 0, z: 1 }
    }
}

/// The plane of face `k` of a box centered at the origin.
pub open spec fn face_plane(extents: Vec3, k: int) -> Plain {
    Plain { normal: face_normal(k), dist: extents.at(k % 3) as i64 }
}

/// Along `axis`, the point at distance `t` on the ray, scaled by the shrink
/// factor, lies within the half-extent `e`.
pub open spec fn axis_inside_shrunk(o: int, d: int, e: int, t: Dist) -> bool {
    abs(o * (t.den as int) + d * (t.num as int)) * SHRINK_NUM <= e * (t.den as int) * SHRINK_DEN
}

/// The point at distance `t` on the ray, scaled by the shrink factor, lies in
/// the box of half-extents `extents` centered at the origin.
pub open spec fn inside_shrunk(extents: Vec3, origin: Vec3, direction: Vec3, t: Dist) -> bool {
    &&& axis_inside_shrunk(origin.x as int, direction.x as int, extents.x as int, t)
    &&& axis_inside_shrunk(origin.y as int, direction.y as int, extents.y as int, t)
    &&& axis_inside_shrunk(origin.z as int, direction.z as int, extents.z as int, t)
}

/// The hit on face `k` of a box centered at the origin, kept only when it
/// lands on the box.
pub open spec fn face_hit(extents: Vec3, origin: Vec3, direction: Vec3, k: int) -> Option<
    IntersectionData<()>,
> {
    match plane_hit(face_plane(extents, k), origin, direction) {
        Some(h) => if inside_shrunk(extents, origin, direction, h.min) {
            Some(h)
        } else {
            None
        },
        None => None,
    }
}

/// How many of the first `n` faces are hit on the box.
pub open spec fn face_count(extents: Vec3, origin: Vec3, direction: Vec3, n: int) -> int
    decreases n,
{
    if n <= 0 {
        0
    } else {
        face_count(extents, origin, direction, n - 1) + if face_hit(
            extents,
            origin,
            direction,
            n - 1,
        ) is Some {
            1int
        } else {
            0int
        }
    }
}

/// Of the hits on the first `n` faces, one with the least distance; the
/// earliest face wins a tie.
pub open spec fn face_entry(extents: Vec3, origin: Vec3, direction: Vec3, n: int) -> Option<
    IntersectionData<()>,
>
    decreases n,
{
    if n <= 0 {
        None
    } else {
        let prev = face_entry(extents, origin, direction, n - 1);
        match face_hit(extents, origin, direction, n - 1) {
            Some(h) => match prev {
                Some(p) => if p.min.after(h.min) {
                    Some(h)
                } else {
                    prev
                },
                None => Some(h),
            },
            None => prev,
        }
    }
}

/// Of the hits on the first `n` faces, one with the greatest distance; the
/// latest face wins a tie.
pub open spec fn face_exit(extents: Vec3, origin: Vec3, direction: Vec3, n: int) -> Option<
    IntersectionData<()>,
>
    decreases n,
{
    if n <= 0 {
        None
    } else {
        let prev = face_exit(extents, origin, direction, n - 1);
        match face_hit(extents, origin, direction, n - 1) {
            Some(h) => match prev {
                Some(p) => if !p.min.after(h.min) {
                    Some(h)
                } else {
                    prev
                },
                None => Some(h),
            },
            None => prev,
        }
    }
}

/// The slab test. Of the face hits that land on the box, the entry is the
/// nearest, with its face's normal, and the exit the farthest, with its
/// face's normal. A tie for the entry goes to the earlier face and a tie for
/// the exit to the later one, so entry and exit are two different faces.
/// None when fewer than two faces are hit.
pub open spec fn box_hit(b: AxisAlignedBox, origin: Vec3, direction: Vec3) -> Option<
    IntersectionData<()>,
> {
    let o = origin.minus(b.pos);
    if face_count(b.extents, o, direction, 6) < 2 {
        None
    } else {
        let near = face_entry(b.extents, o, direction, 6).unwrap();
        let far = face_exit(b.extents, o, direction, 6).unwrap();
        Some(
            IntersectionData {
                min: near.min,
                max: far.max,
                in_normal: near.in_normal,
                out_normal: far.in_normal,
                meta: (),
            },
        )
    }
}

/// `a <= b <= c` gives `a <= c` for well formed distances.
proof fn lemma_not_after_trans(a: Dist, b: Dist, c: Dist)
    requires
        a.wf(),
        b.wf(),
        c.wf(),
        !a.after(b),
        !b.after(c),
    ensures
        !a.after(c),
{
    let (an, ad, bn, bd, cn, cd) = (
        a.num as int,
        a.den as int,
        b.num as int,
        b.den as int,
        c.num as int,
        c.den as int,
    );
    assert(an * cd <= cn * ad) by (nonlinear_arith)
        requires
            ad > 0,
            bd > 0,
            cd > 0,
            an * bd <= bn * ad,
            bn * cd <= cn * bd,
    {
        assert(an * bd * cd <= bn * ad * cd);
        assert(bn * cd * ad <= cn * bd * ad);
        assert(an * cd * bd <= cn * ad * bd);
    }
}

/// A face hit is a single well formed distance.
proof fn lemma_face_hit_is_point(extents: Vec3, origin: Vec3, direction: Vec3, k: int)
    requires
        direction.within(COORD_LIMIT as int),
    ensures
        face_hit(extents, origin, direction, k) matches Some(h) ==> h.min == h.max && h.min.den
            > 0,
{
    let den = dot(face_normal(k), direction);
    let fnv = face_normal(k);
    assert(abs(fnv.x as int) <= 1 && abs(fnv.y as int) <= 1 && abs(fnv.z as int) <= 1);
    assert(fnv.x == 0 || fnv.y == 0);
    assert(fnv.x == 0 || fnv.z == 0);
    assert(fnv.y == 0 || fnv.z == 0);
    let l = COORD_LIMIT as int;
    lemma_product_bound(fnv.x as int, direction.x as int, 1, l);
    lemma_product_bound(fnv.y as int, direction.y as int, 1, l);
    lemma_product_bound(fnv.z as int, direction.z as int, 1, l);
    if fnv.x != 0 {
        assert((fnv.y as int) * (direction.y as int) == 0);
        assert((fnv.z as int) * (direction.z as int) == 0);
    } else if fnv.y != 0 {
        assert((fnv.x as int) * (direction.x as int) == 0);
        assert((fnv.z as int) * (direction.z as int) == 0);
    } else {
        assert((fnv.x as int) * (direction.x as int) == 0);
        assert((fnv.y as int) * (direction.y as int) == 0);
    }
    assert(abs(den) <= COORD_LIMIT);
}

proof fn lemma_entry_not_after_exit(extents: Vec3, origin: Vec3, direction: Vec3, n: int)
    requires
        direction.within(COORD_LIMIT as int),
    ensures
        face_count(extents, origin, direction, n) >= 0,
        face_entry(extents, origin, direction, n) is Some <==> face_count(
            extents,
            origin,
            direction,
            n,
        ) >= 1,
        face_exit(extents, origin, direction, n) is Some <==> face_count(
            extents,
            origin,
            direction,
            n,
        ) >= 1,
        face_entry(extents, origin, direction, n) matches Some(e) ==> e.min == e.max && e.min.wf(),
        face_exit(extents, origin, direction, n) matches Some(x) ==> x.min == x.max && x.min.wf(),
        (face_entry(extents, origin, direction, n) matches Some(e) ==> face_exit(
            extents,
            origin,
            direction,
            n,
        ) matches Some(x) ==> !e.min.after(x.min)),
    decreases n,
{
    if n > 0 {
        lemma_entry_not_after_exit(extents, origin, direction, n - 1);
        lemma_face_hit_is_point(extents, origin, direction, n - 1);
        let pe = face_entry(extents, origin, direction, n - 1);
        let px = face_exit(extents, origin, direction, n - 1);
        if let Some(h) = face_hit(extents, origin, direction, n - 1) {
            if let (Some(e), Some(x)) = (pe, px) {
                let ne = face_entry(extents, origin, direction, n).unwrap();
                let nx = face_exit(extents, origin, direction, n).unwrap();
                if e.min.after(h.min) {
                    if x.min.after(h.min) {
                        lemma_not_after_trans(h.min, e.min, x.min);
                    } else {
                        assert(!h.min.after(h.min));
                    }
                } else if !x.min.after(h.min) {
                    assert(!e.min.after(h.min));
                } else {
                    assert(!ne.min.after(nx.min));
                }
            }
        }
    }
}

/// A box hit never enters after it leaves, and both distances are well formed.
pub proof fn lemma_box_hit_ordered(b: AxisAlignedBox, origin: Vec3, direction: Vec3)
    requires
        box_query_in_range(b, origin, direction),
    ensures
        (box_hit(b, origin, direction) matches Some(h) ==> {
            &&& h.min.wf()
            &&& h.max.wf()
            &&& !h.min.after(h.max)
        }),
{
    lemma_entry_not_after_exit(b.extents, origin.minus(b.pos), direction, 6);
}

/// Inputs for which the slab test's arithmetic is exact.
pub open spec fn box_query_in_range(b: AxisAlignedBox, origin: Vec3, direction: Vec3) -> bool {
    &&& b.pos.within(COORD_LIMIT as int)
    &&& b.extents.within(COORD_LIMIT as int)
    &&& origin.within(COORD_LIMIT as int)
    &&& direction.within(COORD_LIMIT as int)
}

fn face_normal_of(k: usize) -> (r: Vec3)
    requires
        k < 6,
    ensures
        r == face_normal(k as int),
{
    if k == 0 {
        Vec3 { x: -1, y: 0, z: 0 }
    } else if k == 1 {
        Vec3 { x: 0, y: -1, z: 0 }
    } else if k == 2 {
        Vec3 { x: 0, y: 0, z: -1 }
    } else if k == 3 {
        Vec3 { x: 1, y: 0, z: 0 }
    } else if k == 4 {
        Vec3 { x: 0, y: 1, z: 0 }
    } else {
        Vec3 { x: 0, y: 0, z: 1 }
    }
}

fn axis_inside_shrunk_exec(o: i64, d: i64, e: i64, t: Dist) -> (r: bool)
    requires
        abs(o as int) <= LOCAL_LIMIT,
        abs(d as int) <= LOCAL_LIMIT,
        abs(e as int) <= LOCAL_LIMIT,
        t.wf(),
        t.den <= 3 * LOCAL_LIMIT,
        abs(t.num as int) <= 6 * LOCAL_LIMIT,
    ensures
        r == axis_inside_shrunk(o as int, d as int, e as int, t),
{
    proof {
        lemma_product_bound(o as int, t.den as int, LOCAL_LIMIT as int, 3 * LOCAL_LIMIT);
        lemma_product_bound(d as int, t.num as int, LOCAL_LIMIT as int, 6 * LOCAL_LIMIT);
        lemma_product_bound(e as int, t.den as int, LOCAL_LIMIT as int, 3 * LOCAL_LIMIT);
    }
    let p: i128 = (o as i128) * (t.den as i128) + (d as i128) * (t.num as i128);
    let ap: i128 = if p < 0 { -p } else { p };
    let lhs: i128 = ap * SHRINK_NUM;
    let rhs: i128 = (e as i128) * (t.den as i128) * SHRINK_DEN;
    lhs <= rhs
}

impl AxisAlignedBox {
    pub fn from_position_and_extents(pos: Vec3, extents: Vec3) -> (r: Self)
        ensures
            r == (AxisAlignedBox { pos, extents }),
    {
        AxisAlignedBox { pos, extents }
    }

    /// Moves the box by `by`.
    pub fn translate(&mut self, by: Vec3)
        requires
            old(self).pos.within(COORD_LIMIT as int),
            by.within(COORD_LIMIT as int),
        ensures
            *final(self) == (AxisAlignedBox { pos: old(self).pos.plus(by), extents: old(self).extents }),
    {
        self.pos = self.pos.add(&by);
    }

    /// Multiplies each half-extent by the matching component of `by`.
    pub fn scale(&mut self, by: Vec3)
        requires
            abs(old(self).extents.x * by.x) <= COORD_LIMIT,
            abs(old(self).extents.y * by.y) <= COORD_LIMIT,
            abs(old(self).extents.z * by.z) <= COORD_LIMIT,
        ensures
            final(self).pos == old(self).pos,
            final(self).extents.x == old(self).extents.x * by.x,
            final(self).extents.y == old(self).extents.y * by.y,
            final(self).extents.z == old(self).extents.z * by.z,
    {
        self.extents = Vec3 {
            x: self.extents.x * by.x,
            y: self.extents.y * by.y,
            z: self.extents.z * by.z,
        };
    }

    /// The point lies in the closed box.
    pub open spec fn holds(self, point: Vec3) -> bool {
        &&& abs(point.x - self.pos.x) <= self.extents.x
        &&& abs(point.y - self.pos.y) <= self.extents.y
        &&& abs(point.z - self.pos.z) <= self.extents.z
    }

    pub fn contains(&self, point: Vec3) -> (r: bool)
        requires
            self.pos.within(COORD_LIMIT as int),
            point.within(COORD_LIMIT as int),
        ensures
            r == self.holds(point),
    {
        let p = point.sub(&self.pos);
        let ax = if p.x < 0 { -p.x } else { p.x };
        let ay = if p.y < 0 { -p.y } else { p.y };
        let az = if p.z < 0 { -p.z } else { p.z };
        ax <= self.extents.x && ay <= self.extents.y && az <= self.extents.z
    }

}

/// Where the ray enters and leaves the box; see `box_hit`. Distances may be
/// negative when the box lies behind the origin or holds it.
impl RayIntersection for AxisAlignedBox {
    type Meta = ();

    open spec fn ray_in_range(&self, origin: Vec3, direction: Vec3) -> bool {
        box_query_in_range(*self, origin, direction)
    }

    open spec fn ray_hit(&self, origin: Vec3, direction: Vec3) -> Option<IntersectionData<()>> {
        box_hit(*self, origin, direction)
    }

    fn intersect(&self, origin: Vec3, direction: Vec3) -> (r: Option<IntersectionData<()>>) {
        let ext = self.extents;
        let o = origin.sub(&self.pos);
        let mut entry: Option<IntersectionData<()>> = None;
        let mut exit: Option<IntersectionData<()>> = None;
        let mut count: usize = 0;
        let mut k: usize = 0;
        while k < 6
            invariant
                k <= 6,
                o == origin.minus(self.pos),
                o.within(LOCAL_LIMIT as int),
                box_query_in_range(*self, origin, direction),
                ext == self.extents,
                count == face_count(ext, o, direction, k as int),
                count <= k,
                entry == face_entry(ext, o, direction, k as int),
                exit == face_exit(ext, o, direction, k as int),
            decreases 6 - k,
        {
            let plane = Plain { normal: face_normal_of(k), dist: ext.component(k % 3) };
            proof {
                lemma_plane_hit_bounded(plane, o, direction);
            }
            match plane.intersect(o, direction) {
                Some(h) => {
                    if axis_inside_shrunk_exec(o.x, direction.x, ext.x, h.min)
                        && axis_inside_shrunk_exec(o.y, direction.y, ext.y, h.min)
                        && axis_inside_shrunk_exec(o.z, direction.z, ext.z, h.min) {
                        entry = match entry {
                            Some(p) => if p.min.is_after(&h.min) {
                                Some(h)
                            } else {
                                Some(p)
                            },
                            None => Some(h),
                        };
                        exit = match exit {
                            Some(p) => if !p.min.is_after(&h.min) {
                                Some(h)
                            } else {
                                Some(p)
                            },
                            None => Some(h),
                        };
                        count = count + 1;
                    }
                },
                None => {},
            }
            k = k + 1;
        }
        if count < 2 {
            return None;
        }
        proof {
            lemma_entry_not_after_exit(ext, o, direction, 6);
        }
        match (entry, exit) {
            (Some(near), Some(far)) => {
                Some(IntersectionData::new(near.min, far.max, near.in_normal, far.in_normal, ()))
            },
            _ => None,
        }
    }
}

} // verus!
