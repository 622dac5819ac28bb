use std::cmp::Ordering;

use vstd::prelude::*;

use crate::vector::{Dist, Vec3};

verus! {

/// Where a ray enters and leaves something, with the face normals there and
/// a caller payload.
#[derive(Clone, Copy, Debug, PartialEq, Eq)]
pub struct IntersectionData<T> {
    pub min: Dist,
    pub max: Dist,
    pub in_normal: Vec3,
    pub out_normal: Vec3,
    pub meta: T,
}

impl<T> IntersectionData<T> {
    pub fn new(min: Dist, max: Dist, in_normal: Vec3, out_normal: Vec3, meta: T) -> (r: Self)
        ensures
            r == (IntersectionData { min, max, in_normal, out_normal, meta }),
    {
        IntersectionData { min, max, in_normal, out_normal, meta }
    }

    /// The same record with its payload replaced by `meta`.
    pub open spec fn replace_meta<U>(self, meta: U) -> IntersectionData<U> {
        IntersectionData {
            min: self.min,
            max: self.max,
            in_normal: self.in_normal,
            out_normal: self.out_normal,
            meta,
        }
    }

    /// Maps the payload through `f`, keeping distances and normals.
    pub fn with_meta<U, F: FnOnce(T) -> U>(self, f: F) -> (r: IntersectionData<U>)
        requires
            f.requires((self.meta,)),
        ensures
            f.ensures((self.meta,), r.meta),
            r == self.replace_meta(r.meta),
    {
        let meta = f(self.meta);
        IntersectionData {
            min: self.min,
            max: self.max,
            in_normal: self.in_normal,
            out_normal: self.out_normal,
            meta,
        }
    }
}

/// Records compare by entry distance alone.
impl<T: PartialEq> PartialOrd for IntersectionData<T> {
    fn partial_cmp(&self, other: &Self) -> (r: Option<Ordering>) {
        if self.min.is_after(&other.min) {
            Some(Ordering::Greater)
        } else if other.min.is_after(&self.min) {
            Some(Ordering::Less)
        } else {
            Some(Ordering::Equal)
        }
    }
}

impl<T: PartialEq> vstd::std_specs::cmp::PartialOrdSpecImpl for IntersectionData<T> {
    open spec fn obeys_partial_cmp_spec() -> bool {
        true
    }

    open spec fn partial_cmp_spec(&self, other: &Self) -> Option<Ordering> {
        if self.min.after(other.min) {
            Some(Ordering::Greater)
        } else if other.min.after(self.min) {
            Some(Ordering::Less)
        } else {
            Some(Ordering::Equal)
        }
    }
}

/// Replacing the payload touches nothing else: putting back a record's own
/// payload gives the record, and two replacements in a row amount to the
/// last one. `with_meta` returns `replace_meta` of its result's payload, so
/// mapping by the identity, or by two functions in turn, behaves alike.
pub proof fn lemma_replace_meta_round_trip<T, U, V>(d: IntersectionData<T>, u: U, v: V)
    ensures
        d.replace_meta(d.meta) == d,
        d.replace_meta(u).replace_meta(v) == d.replace_meta(v),
        d.replace_meta(u).min == d.min && d.replace_meta(u).max == d.max,
        d.replace_meta(u).in_normal == d.in_normal && d.replace_meta(u).out_normal == d.out_normal,
{
}

/// Something a ray can be intersected with.
pub trait RayIntersection {
    type Meta;

    /// Rays for which `intersect` computes exactly.
    spec fn ray_in_range(&self, origin: Vec3, direction: Vec3) -> bool;

    /// What `intersect` returns for the ray.
    spec fn ray_hit(&self, origin: Vec3, direction: Vec3) -> Option<IntersectionData<Self::Meta>>;

    fn intersect(&self, origin: Vec3, direction: Vec3) -> (r: Option<IntersectionData<Self::Meta>>)
        requires
            self.ray_in_range(origin, direction),
        ensures
            r == self.ray_hit(origin, direction),
    ;
}

} // verus!
