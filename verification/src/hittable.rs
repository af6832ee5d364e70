//! The surface-intersection contract: hit records, scene objects, and the
//! aggregate container that answers with the closest intersection.

use vstd::prelude::*;
use crate::fixed::{UNIT, fits_i64, tdiv, lemma_tdiv_mono, lemma_tdiv_exact};
use crate::vec3::{Vec3, Point3, dot_spec, lsq_spec};
use crate::ray::Ray;
use crate::sphere::{Sphere, sphere_wf, sphere_hit_spec};

verus! {

/// The largest coordinate magnitude the intersection routines accept.
pub const MAX_COORD: i64 = 4_000_000_000;

/// The largest direction-component magnitude the intersection routines accept.
pub const MAX_DIR: i64 = 40_000_000;

/// The largest parametric distance the intersection routines accept.
pub const MAX_T: i64 = 4_000_000_000;

/// The lower parametric bound used by the integrator, strictly above zero to
/// suppress self-intersection with the surface a bounce just left.
pub const EPS: i64 = 1_000;

/// The largest magnitude a hit point's component can reach: a ray origin
/// plus the largest admissible displacement `MAX_T * MAX_DIR / UNIT`.
pub const MAX_POINT: i64 = 164_000_000_000;

/// Whether a point component lies in the supported coordinate range.
pub open spec fn coord_ok(c: int) -> bool {
    -MAX_COORD <= c <= MAX_COORD
}

/// Whether a direction component lies in the supported range.
pub open spec fn dir_ok(d: int) -> bool {
    -MAX_DIR <= d <= MAX_DIR
}

/// Whether a ray's origin and direction lie in the supported ranges.
pub open spec fn ray_in_bounds(r: Ray) -> bool {
    &&& coord_ok(r.origin.x as int)
    &&& coord_ok(r.origin.y as int)
    &&& coord_ok(r.origin.z as int)
    &&& dir_ok(r.direction.x as int)
    &&& dir_ok(r.direction.y as int)
    &&& dir_ok(r.direction.z as int)
}

/// Whether a parametric window lies in the supported range.
pub open spec fn trange_ok(t_min: int, t_max: int) -> bool {
    -MAX_T <= t_min <= MAX_T && -MAX_T <= t_max <= MAX_T
}

/// The payload of a successful intersection. Valid only when the hit test
/// that filled it reported success.
#[derive(Clone, Copy, PartialEq, Eq, Structural)]
pub struct HitRecord {
    /// Where the ray meets the surface.
    pub point: Point3,
    /// The surface normal at the hit, oriented against the incoming ray.
    pub normal: Vec3,
    /// The parametric distance of the hit along the ray.
    pub t: i64,
    /// Whether the ray struck the outside of the surface.
    pub front_face: bool,
}

impl HitRecord {
    /// An empty record, to be filled by a hit test.
    pub fn new() -> (rec: HitRecord)
        ensures
            rec.point == (Vec3 { x: 0i64, y: 0i64, z: 0i64 }),
            rec.normal == (Vec3 { x: 0i64, y: 0i64, z: 0i64 }),
            rec.t == 0,
            rec.front_face == false,
    {
        HitRecord {
            point: Vec3 { x: 0, y: 0, z: 0 },
            normal: Vec3 { x: 0, y: 0, z: 0 },
            t: 0,
            front_face: false,
        }
    }

    /// Orients `outward_normal` against the incoming ray: the recorded normal
    /// is the outward normal when the ray arrives from outside, and its
    /// negation when the ray arrives from inside.
    pub fn set_face_normal(&mut self, r: &Ray, outward_normal: Vec3)
        requires
            fits_i64(dot_spec(r.direction, outward_normal)),
            outward_normal.x > i64::MIN,
            outward_normal.y > i64::MIN,
            outward_normal.z > i64::MIN,
        ensures
            final(self).front_face == (dot_spec(r.direction, outward_normal) < 0),
            final(self).normal == if dot_spec(r.direction, outward_normal) < 0 {
                outward_normal
            } else {
                (Vec3 {
                    x: (-outward_normal.x) as i64,
                    y: (-outward_normal.y) as i64,
                    z: (-outward_normal.z) as i64,
                })
            },
            final(self).point == old(self).point,
            final(self).t == old(self).t,
    {
        let d = r.direction();
        self.front_face = d.dot(outward_normal) < 0;
        self.normal = if self.front_face {
            outward_normal
        } else {
            outward_normal.neg()
        };
    }
}

/// A scene object that can answer ray-intersection queries.
pub enum Hittable {
    /// A sphere.
    Sphere(Sphere),
}

/// Whether a scene object is well formed.
pub open spec fn obj_wf(h: Hittable) -> bool {
    match h {
        Hittable::Sphere(s) => sphere_wf(s),
    }
}

/// What a scene object's hit test returns.
pub open spec fn obj_hit_spec(h: Hittable, r: Ray, t_min: int, t_max: int) -> Option<HitRecord> {
    match h {
        Hittable::Sphere(s) => sphere_hit_spec(s, r, t_min, t_max),
    }
}

impl Hittable {
    /// Tests the ray against this object within `(t_min, t_max)`; on success
    /// fills `rec` with the closest such intersection.
    pub fn hit(&self, r: &Ray, t_min: i64, t_max: i64, rec: &mut HitRecord) -> (is_hit: bool)
        requires
            obj_wf(*self),
            ray_in_bounds(*r),
            trange_ok(t_min as int, t_max as int),
        ensures
            match obj_hit_spec(*self, *r, t_min as int, t_max as int) {
                Some(h) => is_hit && *final(rec) == h && t_min < h.t < t_max
                    && hit_record_bounded(h),
                None => !is_hit && *final(rec) == *old(rec),
            },
    {
        match self {
            Hittable::Sphere(s) => s.hit(r, t_min, t_max, rec),
        }
    }
}

/// The bounds every record returned by a hit test observes: the point within
/// the reachable box, the normal within two units per component and hence of
/// fixed-point squared length at most twelve units.
pub open spec fn hit_record_bounded(h: HitRecord) -> bool {
    &&& -MAX_POINT <= h.point.x <= MAX_POINT
    &&& -MAX_POINT <= h.point.y <= MAX_POINT
    &&& -MAX_POINT <= h.point.z <= MAX_POINT
    &&& -2 * (UNIT as int) <= h.normal.x <= 2 * (UNIT as int)
    &&& -2 * (UNIT as int) <= h.normal.y <= 2 * (UNIT as int)
    &&& -2 * (UNIT as int) <= h.normal.z <= 2 * (UNIT as int)
    &&& 0 <= lsq_spec(h.normal) <= 12 * (UNIT as int)
}

/// A vector within two units per component has a fixed-point squared length
/// of at most twelve units.
pub proof fn lemma_bounded_normal_lsq(v: Vec3)
    requires
        -2 * (UNIT as int) <= v.x <= 2 * (UNIT as int),
        -2 * (UNIT as int) <= v.y <= 2 * (UNIT as int),
        -2 * (UNIT as int) <= v.z <= 2 * (UNIT as int),
    ensures
        0 <= lsq_spec(v) <= 12 * (UNIT as int),
{
    lemma_sq_le_four_units(v.x as int);
    lemma_sq_le_four_units(v.y as int);
    lemma_sq_le_four_units(v.z as int);
}

/// The truncated scaled square of a value within two units is at most four
/// units.
proof fn lemma_sq_le_four_units(c: int)
    requires
        -2_000_000 <= c <= 2_000_000,
    ensures
        0 <= tdiv(c * c, UNIT as int) <= 4_000_000,
{
    assert(0 <= c * c <= 4_000_000int * 1_000_000int) by (nonlinear_arith)
        requires -2_000_000 <= c <= 2_000_000;
    lemma_tdiv_mono(0, c * c, UNIT as int);
    lemma_tdiv_mono(c * c, 4_000_000int * 1_000_000int, UNIT as int);
    lemma_tdiv_exact(4_000_000int, UNIT as int);
    lemma_tdiv_exact(0, UNIT as int);
}

/// An ordered collection of scene objects, itself answering intersection
/// queries with the closest hit across its members.
pub struct HittableList {
    /// The owned members, tested in order.
    pub objects: Vec<Hittable>,
}

/// Whether every member of the list is well formed.
pub open spec fn list_wf(l: HittableList) -> bool {
    forall|k: int| 0 <= k < l.objects@.len() ==> obj_wf(#[trigger] l.objects@[k])
}

/// The closest hit after testing the first `n` members in order, shrinking
/// the window's upper bound to each closest hit found so far.
pub open spec fn list_hit_prefix(s: Seq<Hittable>, n: int, r: Ray, t_min: int, t_max: int)
    -> Option<HitRecord>
    decreases n,
{
    if n <= 0 {
        None
    } else {
        let prev = list_hit_prefix(s, n - 1, r, t_min, t_max);
        let bound = match prev {
            Some(h) => h.t as int,
            None => t_max,
        };
        match obj_hit_spec(s[n - 1], r, t_min, bound) {
            Some(h) => Some(h),
            None => prev,
        }
    }
}

/// What the list's hit test returns: the closest hit across all members.
pub open spec fn list_hit_spec(s: Seq<Hittable>, r: Ray, t_min: int, t_max: int)
    -> Option<HitRecord> {
    list_hit_prefix(s, s.len() as int, r, t_min, t_max)
}

/// Testing the first `n` members keeps every reported hit strictly inside
/// the window, returns a record that some member's full-window test reports,
/// and returns one at least as close as any hit among those members.
proof fn lemma_list_prefix_closest(s: Seq<Hittable>, n: int, r: Ray, t_min: int, t_max: int)
    requires
        -MAX_T <= t_min <= MAX_T,
        -MAX_T <= t_max <= MAX_T,
        0 <= n <= s.len(),
    ensures
        list_hit_prefix(s, n, r, t_min, t_max) matches Some(h) ==> t_min < h.t < t_max,
        list_hit_prefix(s, n, r, t_min, t_max) matches Some(h)
            ==> exists|m: int| 0 <= m < n
                && obj_hit_spec(#[trigger] s[m], r, t_min, t_max) == Some(h),
        forall|k: int| 0 <= k < n
            && #[trigger] obj_hit_spec(s[k], r, t_min, t_max) is Some
            ==> (list_hit_prefix(s, n, r, t_min, t_max) is Some
                && list_hit_prefix(s, n, r, t_min, t_max).unwrap().t
                    <= obj_hit_spec(s[k], r, t_min, t_max).unwrap().t),
    decreases n,
{
    if n > 0 {
        lemma_list_prefix_closest(s, n - 1, r, t_min, t_max);
        let prev = list_hit_prefix(s, n - 1, r, t_min, t_max);
        let bound = match prev {
            Some(h) => h.t as int,
            None => t_max,
        };
        match s[n - 1] {
            Hittable::Sphere(sp) => {
                crate::sphere::lemma_sphere_hit_tighten(sp, r, t_min, bound, t_max);
            }
        }
        let step = obj_hit_spec(s[n - 1], r, t_min, bound);
        let cur = list_hit_prefix(s, n, r, t_min, t_max);
        match step {
            Some(h) => {
                assert(cur == Some(h));
                assert(obj_hit_spec(s[n - 1], r, t_min, t_max) == Some(h));
                assert(t_min < h.t < bound);
                assert(forall|k: int| 0 <= k < n
                    && #[trigger] obj_hit_spec(s[k], r, t_min, t_max) is Some
                    ==> h.t <= obj_hit_spec(s[k], r, t_min, t_max).unwrap().t);
            },
            None => {
                assert(cur == prev);
                if obj_hit_spec(s[n - 1], r, t_min, t_max) is Some {
                    let hk = obj_hit_spec(s[n - 1], r, t_min, t_max).unwrap();
                    assert(hk.t >= bound);
                    assert(hk.t < t_max);
                    assert(prev is Some);
                }
            },
        }
    }
}

/// The list's hit is the globally closest one: whenever the list reports a
/// hit, that record is some member's own full-window hit, and no member's
/// full-window hit lies strictly closer; whenever any member reports a hit
/// over the full window, the list reports one too.
pub proof fn lemma_list_hit_closest(s: Seq<Hittable>, r: Ray, t_min: int, t_max: int, k: int)
    requires
        -MAX_T <= t_min <= MAX_T,
        -MAX_T <= t_max <= MAX_T,
        0 <= k < s.len(),
        obj_hit_spec(s[k], r, t_min, t_max) is Some,
    ensures
        list_hit_spec(s, r, t_min, t_max) is Some,
        list_hit_spec(s, r, t_min, t_max).unwrap().t
            <= obj_hit_spec(s[k], r, t_min, t_max).unwrap().t,
        exists|m: int| 0 <= m < s.len() && obj_hit_spec(#[trigger] s[m], r, t_min, t_max)
            == Some(list_hit_spec(s, r, t_min, t_max).unwrap()),
{
    lemma_list_prefix_closest(s, s.len() as int, r, t_min, t_max);
}

impl HittableList {
    /// An empty scene.
    pub fn new() -> (l: HittableList)
        ensures
            l.objects@.len() == 0,
    {
        HittableList { objects: Vec::new() }
    }

    /// Appends an object to the scene.
    pub fn add(&mut self, object: Hittable)
        ensures
            final(self).objects@ == old(self).objects@.push(object),
    {
        self.objects.push(object);
    }

    /// Tests the ray against every member; on success fills `rec` with the
    /// globally closest intersection in `(t_min, t_max)`.
    pub fn hit(&self, r: &Ray, t_min: i64, t_max: i64, rec: &mut HitRecord) -> (is_hit: bool)
        requires
            list_wf(*self),
            ray_in_bounds(*r),
            trange_ok(t_min as int, t_max as int),
        ensures
            match list_hit_spec(self.objects@, *r, t_min as int, t_max as int) {
                Some(h) => is_hit && *final(rec) == h && t_min < h.t < t_max
                    && hit_record_bounded(h),
                None => !is_hit && *final(rec) == *old(rec),
            },
    {
        let mut hit_anything: bool = false;
        let mut closest_so_far: i64 = t_max;
        let mut k: usize = 0;
        let n: usize = self.objects.len();
        while k < n
            invariant
                n == self.objects@.len(),
                0 <= k <= n,
                list_wf(*self),
                ray_in_bounds(*r),
                trange_ok(t_min as int, t_max as int),
                -MAX_T <= closest_so_far <= MAX_T,
                match list_hit_prefix(self.objects@, k as int, *r, t_min as int, t_max as int) {
                    Some(h) => hit_anything && *rec == h && t_min < h.t < t_max
                        && closest_so_far == h.t && hit_record_bounded(h),
                    None => !hit_anything && *rec == *old(rec) && closest_so_far == t_max,
                },
            decreases n - k,
        {
            let obj = &self.objects[k];
            if obj.hit(r, t_min, closest_so_far, rec) {
                hit_anything = true;
                closest_so_far = rec.t;
            }
            k = k + 1;
        }
        hit_anything
    }
}

} // verus!
