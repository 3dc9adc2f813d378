//! The intersection protocol: hit records, the `Hittable` trait, and the
//! nearest-hit scan over an ordered list of primitives.

use vstd::prelude::*;
use crate::material::Material;
use crate::vec3::{Vec3, bounded, dot3, COORD_MAX};
use crate::ray::Ray;
use crate::sphere::{Sphere, T_CAP};

verus! {

/// The transient result of one successful hit test.
#[derive(Debug, Clone, Copy)]
pub struct HitRecord {
    pub t: i64,
    pub p: Vec3,
    pub normal: Vec3,
    pub material: Option<Material>,
}

/// The mathematical image of a hit record, over unbounded integers.
pub struct HitData {
    pub t: int,
    pub p1: int,
    pub p2: int,
    pub p3: int,
    pub n1: int,
    pub n2: int,
    pub n3: int,
    pub material: Option<Material>,
}

/// The executable record carries exactly the values of the mathematical one.
pub open spec fn rec_matches(rec: HitRecord, d: HitData) -> bool {
    rec.t == d.t && rec.p.v1 == d.p1 && rec.p.v2 == d.p2 && rec.p.v3 == d.p3
        && rec.normal.v1 == d.n1 && rec.normal.v2 == d.n2 && rec.normal.v3 == d.n3
        && rec.material == d.material
}

/// The intersection protocol: a primitive reports the smallest parameter
/// strictly inside `(t_min, t_max)` at which the ray meets it, or nothing.
pub trait Hittable: Sized {
    /// What the primitive asks of the ray, the bounds and itself.
    spec fn hit_pre(&self, r: Ray, t_min: int, t_max: int) -> bool;

    /// The outcome the hit test must report.
    spec fn hit_spec(&self, r: Ray, t_min: int, t_max: int) -> Option<HitData>;

    fn hit(&self, r: &Ray, t_min: i64, t_max: i64, rec: &mut HitRecord) -> (b: bool)
        requires
            self.hit_pre(*r, t_min as int, t_max as int),
        ensures
            b == (self.hit_spec(*r, t_min as int, t_max as int) is Some),
            b ==> rec_matches(*final(rec), self.hit_spec(*r, t_min as int, t_max as int)->Some_0),
            !b ==> *final(rec) == *old(rec);
}

/// The left-to-right scan, as a fold over the list of primitives,
/// shrinking the upper bound to the nearest hit found so far.
pub open spec fn scan_hit(
    list: Seq<Sphere>,
    r: Ray,
    t_min: int,
    closest: int,
    cur: Option<HitData>,
) -> Option<HitData>
    decreases list.len(),
{
    if list.len() == 0 {
        cur
    } else {
        match list[0].hit_spec(r, t_min, closest) {
            Option::Some(d) => scan_hit(list.drop_first(), r, t_min, d.t, Option::Some(d)),
            Option::None => scan_hit(list.drop_first(), r, t_min, closest, cur),
        }
    }
}

/// The scan only ever returns what it was seeded with or a record taken
/// from a sphere of the list; in particular a record of a well-formed
/// scene carries a valid material.
pub proof fn lemma_scan_result(
    list: Seq<Sphere>,
    r: Ray,
    t_min: int,
    closest: int,
    cur: Option<HitData>,
)
    requires
        forall|i: int| 0 <= i < list.len() ==> (#[trigger] list[i]).wf(),
        cur is Some ==> hit_data_ok(cur->Some_0),
    ensures
        scan_hit(list, r, t_min, closest, cur) is Some
            ==> hit_data_ok(scan_hit(list, r, t_min, closest, cur)->Some_0),
    decreases list.len(),
{
    if list.len() != 0 {
        let s = list[0];
        assert forall|j: int| 0 <= j < list.drop_first().len()
            implies (#[trigger] list.drop_first()[j]).wf() by {
            assert(list.drop_first()[j] == list[j + 1]);
        }
        match s.hit_spec(r, t_min, closest) {
            Option::Some(d) => {
                s.lemma_hit_spec_ok(r, t_min, closest);
                lemma_scan_result(list.drop_first(), r, t_min, d.t, Option::Some(d));
            },
            Option::None => {
                lemma_scan_result(list.drop_first(), r, t_min, closest, cur);
            },
        }
    }
}

/// What every record of a well-formed scene satisfies: the material
/// carried over from the sphere that was hit is valid.
pub open spec fn hit_data_ok(d: HitData) -> bool {
    d.material is Some ==> d.material->Some_0.valid()
}

/// Linear scan over all primitives, keeping the closest qualifying hit:
/// reports exactly the fold `scan_hit` of the list.
pub fn hit(
    list: &Vec<Sphere>,
    r: &Ray,
    t_min: i64,
    t_max: i64,
    rec: &mut HitRecord,
) -> (b: bool)
    requires
        bounded(r.a, COORD_MAX as int),
        bounded(r.b, COORD_MAX as int),
        dot3(r.b, r.b) > 0,
        -T_CAP <= t_min,
        t_max <= T_CAP,
        forall|i: int| 0 <= i < list@.len() ==> (#[trigger] list@[i]).wf(),
    ensures
        b == (scan_hit(list@, *r, t_min as int, t_max as int, Option::None) is Some),
        b ==> rec_matches(
            *final(rec),
            scan_hit(list@, *r, t_min as int, t_max as int, Option::None)->Some_0,
        ),
        !b ==> *final(rec) == *old(rec),
{
    let mut temp = HitRecord {
        t: 0,
        p: Vec3 { v1: 0, v2: 0, v3: 0 },
        normal: Vec3 { v1: 0, v2: 0, v3: 0 },
        material: None,
    };
    let mut hit_anything: bool = false;
    let mut closest: i64 = t_max;
    let ghost mut cur: Option<HitData> = Option::None;
    let mut i: usize = 0;
    proof {
        assert(list@.skip(0) =~= list@);
    }
    while i < list.len()
        invariant
            0 <= i <= list@.len(),
            bounded(r.a, COORD_MAX as int),
            bounded(r.b, COORD_MAX as int),
            dot3(r.b, r.b) > 0,
            -T_CAP <= t_min,
            closest <= t_max <= T_CAP,
            forall|k: int| 0 <= k < list@.len() ==> (#[trigger] list@[k]).wf(),
            hit_anything == (cur is Some),
            cur is Some ==> rec_matches(temp, cur->Some_0) && closest == cur->Some_0.t,
            cur is None ==> closest == t_max,
            scan_hit(list@, *r, t_min as int, t_max as int, Option::None)
                == scan_hit(list@.skip(i as int), *r, t_min as int, closest as int, cur),
        decreases list@.len() - i,
    {
        proof {
            assert(list@.skip(i as int)[0] == list@[i as int]);
            assert(list@.skip(i as int).drop_first() =~= list@.skip(i as int + 1));
        }
        let prev: i64 = closest;
        let s_hit = list[i].hit(r, t_min, prev, &mut temp);
        if s_hit {
            hit_anything = true;
            closest = temp.t;
            proof {
                cur = list@[i as int].hit_spec(*r, t_min as int, prev as int);
            }
        }
        i = i + 1;
    }
    proof {
        assert(list@.skip(list@.len() as int).len() == 0);
    }
    if hit_anything {
        *rec = temp;
        true
    } else {
        false
    }
}

} // verus!
