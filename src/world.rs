use vstd::prelude::*;

use crate::bvh::{all_hits, overlapping, Bvh, BvhIterator};
use crate::math::in_grid;
use crate::ray::Ray;
use crate::sphere::{contact_spec, PrimitiveIntersection, Sphere};
use crate::triangle::{hit_in_range, lemma_hit_in_range, Intersection, Triangle};

verus! {

/// The level's collision geometry, and the queries that game logic makes on it.
pub struct World {
    bvh: Bvh,
}

impl World {
    pub closed spec fn bvh_view(&self) -> Bvh {
        self.bvh
    }

    pub open spec fn wf(&self) -> bool {
        self.bvh_view().wf()
    }

    pub fn new(bvh: Bvh) -> (r: Self)
        ensures
            r.bvh_view() == bvh,
    {
        Self { bvh }
    }

    /// The nearest hit of the ray on the level, if it hits anything: a hit that no other
    /// hit comes before.
    pub fn raycast(&self, ray: &Ray) -> (r: Option<Intersection>)
        requires
            self.wf(),
            in_grid(ray.origin),
            in_grid(ray.direction),
        ensures
            r matches None ==> forall|h: Intersection|
                !all_hits(self.bvh_view().triangles_view(), *ray).contains(h),
            r matches Some(best) ==> {
                &&& all_hits(self.bvh_view().triangles_view(), *ray).contains(best)
                &&& forall|h: Intersection| #[trigger]
                    all_hits(self.bvh_view().triangles_view(), *ray).contains(h) ==> !h.nearer(
                        best,
                    )
            },
    {
        let intersections = self.bvh.intersects(ray);
        let ghost hits = all_hits(self.bvh.triangles_view(), *ray);
        proof {
            assert forall|h: Intersection| hits.contains(h) implies hit_in_range(h) by {
                let tris = self.bvh.triangles_view();
                let p = choose|p: usize|
                    #![trigger crate::bvh::all_primitives(tris.len()).contains(p), tris[p as int]]
                    crate::bvh::all_primitives(tris.len()).contains(p) && p < tris.len()
                        && crate::triangle::ray_hits(tris[p as int], *ray) && h
                        == crate::triangle::hit_spec(tris[p as int], *ray);
                lemma_hit_in_range(tris[p as int], *ray);
            }
        }
        if intersections.len() == 0 {
            proof {
                assert forall|h: Intersection| !hits.contains(h) by {
                    if hits.contains(h) {
                        assert(intersections@.to_set().contains(h));
                    }
                }
            }
            return None;
        }
        let mut best: usize = 0;
        let mut i: usize = 1;
        proof {
            assert(intersections@.to_set().contains(intersections@[0]));
        }
        while i < intersections.len()
            invariant
                1 <= i <= intersections.len(),
                best < i,
                intersections@.to_set() == hits,
                forall|h: Intersection| hits.contains(h) ==> hit_in_range(h),
                forall|j: int| 0 <= j < i ==> !(#[trigger] intersections@[j]).nearer(intersections@[best as int]),
            decreases intersections.len() - i,
        {
            let a = &intersections[i];
            let b = &intersections[best];
            proof {
                assert(intersections@.to_set().contains(intersections@[i as int]));
                assert(intersections@.to_set().contains(intersections@[best as int]));
                assert(hits.contains(*a) && hits.contains(*b));
                assert(hit_in_range(*a) && hit_in_range(*b));
                assert(a.t_num <= 0x100_0000_0000_0000_0000 && b.t_num <= 0x100_0000_0000_0000_0000);
                crate::math::lemma_mul_bounded(a.t_num as int, b.t_den as int, 0x100_0000_0000_0000_0000int, 0x40_0000_0000_0000int);
                crate::math::lemma_mul_bounded(b.t_num as int, a.t_den as int, 0x100_0000_0000_0000_0000int, 0x40_0000_0000_0000int);
            }
            if a.t_num * b.t_den < b.t_num * a.t_den {
                proof {
                    assert forall|j: int| 0 <= j < i + 1 implies !(#[trigger] intersections@[j]).nearer(intersections@[i as int]) by {
                        let c = intersections@[j];
                        assert(intersections@.to_set().contains(c));
                        if j < i {
                            lemma_nearer_transitive(c, *b, *a);
                        }
                    }
                }
                best = i;
            }
            i = i + 1;
        }
        proof {
            assert forall|h: Intersection| #[trigger] hits.contains(h) implies !h.nearer(intersections@[best as int]) by {
                assert(intersections@.to_set().contains(h));
                let j = choose|j: int| 0 <= j < intersections@.len() && intersections@[j] == h;
            }
            assert(hits.contains(intersections@[best as int]));
        }
        Some(intersections[best])
    }

    /// The indices of the triangles whose boxes overlap the sphere's box: the candidates
    /// of a sphere collision, exactly those that a test of every triangle's box would find.
    pub fn sphere_candidates(&self, sphere: &Sphere) -> (r: Vec<usize>)
        requires
            self.wf(),
            sphere.wf(),
        ensures
            r@.to_set() == overlapping(self.bvh_view().triangles_view(), sphere.bounds_spec()),
    {
        let bounds = sphere.get_bounds();
        self.bvh.query_bounds(&bounds)
    }

    /// The deepest contact of the sphere with the triangles whose boxes overlap the
    /// sphere's box: a contact that no other one lies deeper than.
    pub fn collide_sphere(&self, sphere: &Sphere) -> (r: Option<PrimitiveIntersection>)
        requires
            self.wf(),
            sphere.wf(),
        ensures
            r matches None ==> forall|p: usize| #[trigger]
                overlapping(self.bvh_view().triangles_view(), sphere.bounds_spec()).contains(p)
                    ==> contact_spec(*sphere, self.bvh_view().triangles_view()[p as int]) is None,
            r matches Some(best) ==> {
                &&& exists|p: usize| #[trigger]
                    overlapping(self.bvh_view().triangles_view(), sphere.bounds_spec()).contains(p)
                        && contact_spec(*sphere, self.bvh_view().triangles_view()[p as int])
                        == Some(best)
                &&& forall|p: usize| #[trigger]
                    overlapping(self.bvh_view().triangles_view(), sphere.bounds_spec()).contains(p)
                        ==> (contact_spec(*sphere, self.bvh_view().triangles_view()[p as int]) matches Some(
                        other,
                    ) ==> !other.deeper(best))
            },
    {
        let ghost tris = self.bvh.triangles_view();
        let ghost cands = overlapping(tris, sphere.bounds_spec());
        let candidates = self.sphere_candidates(sphere);
        let mut best: Option<PrimitiveIntersection> = None;
        let mut i: usize = 0;
        while i < candidates.len()
            invariant
                i <= candidates.len(),
                self.wf(),
                sphere.wf(),
                tris == self.bvh.triangles_view(),
                candidates@.to_set() == cands,
                cands == overlapping(tris, sphere.bounds_spec()),
                best matches None ==> forall|j: int| 0 <= j < i ==> contact_spec(*sphere, tris[#[trigger] candidates@[j] as int]) is None,
                best matches Some(c) ==> {
                    &&& c.in_range()
                    &&& exists|j: int| 0 <= j < i && contact_spec(*sphere, tris[#[trigger] candidates@[j] as int]) == Some(c)
                    &&& forall|j: int| 0 <= j < i ==> (contact_spec(*sphere, tris[#[trigger] candidates@[j] as int]) matches Some(o) ==> o.in_range() && !o.deeper(c))
                },
            decreases candidates.len() - i,
        {
            let index = candidates[i];
            proof {
                assert(candidates@.to_set().contains(index));
                assert(index < tris.len());
                assert(tris[index as int].wf());
            }
            let tri = self.bvh.get_primitive(index);
            let found = sphere.intersects_triangle(tri);
            let ghost old_best = best;
            if let Some(contact) = found {
                let replace = match &best {
                    None => true,
                    Some(current) => crate::math::product_less(
                        contact.distance_num,
                        current.distance_den,
                        current.distance_num,
                        contact.distance_den,
                    ),
                };
                if replace {
                    proof {
                        assert forall|j: int| 0 <= j < i + 1 implies (contact_spec(*sphere, tris[#[trigger] candidates@[j] as int]) matches Some(o) ==> o.in_range() && !o.deeper(contact)) by {
                            if j < i {
                                if let Some(o) = contact_spec(*sphere, tris[candidates@[j] as int]) {
                                    if let Some(c) = old_best {
                                        lemma_deeper_transitive(o, c, contact);
                                    }
                                }
                            }
                        }
                        assert(contact_spec(*sphere, tris[candidates@[i as int] as int]) == Some(contact));
                    }
                    best = Some(contact);
                } else {
                    proof {
                        let c = old_best->Some_0;
                        assert(contact_spec(*sphere, tris[candidates@[i as int] as int]) == Some(contact));
                        let j0 = choose|j: int| 0 <= j < i && contact_spec(*sphere, tris[#[trigger] candidates@[j] as int]) == Some(c);
                        assert(0 <= j0 < i + 1);
                    }
                }
            } else {
                proof {
                    if let Some(c) = old_best {
                        let j0 = choose|j: int| 0 <= j < i && contact_spec(*sphere, tris[#[trigger] candidates@[j] as int]) == Some(c);
                        assert(0 <= j0 < i + 1);
                    }
                }
            }
            i = i + 1;
        }
        proof {
            match best {
                None => {
                    assert forall|p: usize| #[trigger] cands.contains(p) implies contact_spec(*sphere, tris[p as int]) is None by {
                        assert(candidates@.to_set().contains(p));
                        let j = choose|j: int| 0 <= j < candidates@.len() && candidates@[j] == p;
                    }
                },
                Some(c) => {
                    let j0 = choose|j: int| 0 <= j < candidates@.len() && contact_spec(*sphere, tris[#[trigger] candidates@[j] as int]) == Some(c);
                    assert(candidates@.to_set().contains(candidates@[j0]));
                    assert(cands.contains(candidates@[j0]));
                    assert forall|p: usize| #[trigger] cands.contains(p) implies (contact_spec(*sphere, tris[p as int]) matches Some(o) ==> !o.deeper(c)) by {
                        assert(candidates@.to_set().contains(p));
                        let j = choose|j: int| 0 <= j < candidates@.len() && candidates@[j] == p;
                    }
                },
            }
        }
        best
    }

    /// Every contact of the sphere with the triangles whose boxes overlap the sphere's
    /// box, found lazily, one call of `next` at a time.
    pub fn collide_sphere_all<'a>(&'a self, sphere: &'a Sphere) -> (r: SphereIntersectionIter<'a>)
        requires
            self.wf(),
            sphere.wf(),
        ensures
            r.wf(),
            r.remaining() == contacts_of(
                self.bvh_view().triangles_view(),
                overlapping(self.bvh_view().triangles_view(), sphere.bounds_spec()),
                *sphere,
            ),
            r.pending_prims() == overlapping(self.bvh_view().triangles_view(), sphere.bounds_spec()),
            r.sphere_view() == *sphere,
            r.triangles_view() == self.bvh_view().triangles_view(),
    {
        let bounds = sphere.get_bounds();
        let iter = self.bvh.query_bounds_iter(bounds);
        SphereIntersectionIter::new(iter, sphere)
    }

    /// The hierarchy that the world queries.
    pub fn bvh(&self) -> (r: &Bvh)
        ensures
            *r == self.bvh_view(),
    {
        &self.bvh
    }
}

/// If `c` is not before `b`, and `a` is before `b`, then `c` is not before `a`.
proof fn lemma_nearer_transitive(c: Intersection, b: Intersection, a: Intersection)
    requires
        hit_in_range(a),
        hit_in_range(b),
        hit_in_range(c),
        !c.nearer(b),
        a.nearer(b),
    ensures
        !c.nearer(a),
{
    let (an, ad, bn, bd, cn, cd) = (
        a.t_num as int,
        a.t_den as int,
        b.t_num as int,
        b.t_den as int,
        c.t_num as int,
        c.t_den as int,
    );
    assert(!(cn * ad < an * cd)) by (nonlinear_arith)
        requires
            ad > 0,
            bd > 0,
            cd > 0,
            cn * bd >= bn * cd,
            an * bd < bn * ad,
    ;
}

/// If `o` is not deeper than `c`, and `n` is deeper than `c`, then `o` is not deeper than `n`.
proof fn lemma_deeper_transitive(o: PrimitiveIntersection, c: PrimitiveIntersection, n: PrimitiveIntersection)
    requires
        o.in_range(),
        c.in_range(),
        n.in_range(),
        !o.deeper(c),
        n.deeper(c),
    ensures
        !o.deeper(n),
{
    let (on, od, cn, cd, nn, nd) = (
        o.distance_num as int,
        o.distance_den as int,
        c.distance_num as int,
        c.distance_den as int,
        n.distance_num as int,
        n.distance_den as int,
    );
    assert(!(on * nd < nn * od)) by (nonlinear_arith)
        requires
            od > 0,
            cd > 0,
            nd > 0,
            on * cd >= cn * od,
            nn * cd < cn * nd,
    ;
}

/// The contacts of the sphere with the triangles whose indices are in `ps`.
pub open spec fn contacts_of(tris: Seq<Triangle>, ps: Set<usize>, sphere: Sphere) -> Set<PrimitiveIntersection> {
    Set::new(
        |c: PrimitiveIntersection|
            exists|p: usize| #[trigger] ps.contains(p) && contact_spec(sphere, tris[p as int]) == Some(c),
    )
}

/// The contacts of a sphere with the level, found lazily.
pub struct SphereIntersectionIter<'a> {
    inner: BvhIterator<'a>,
    query: &'a Sphere,
}

impl<'a> SphereIntersectionIter<'a> {
    pub closed spec fn wf(&self) -> bool {
        &&& self.inner.wf()
        &&& self.inner.bvh_view().wf()
        &&& self.query.wf()
        &&& self.inner.query_view() == self.query.bounds_spec()
    }

    /// A measure of the work left, which every call of `next` that yields reduces.
    pub closed spec fn progress(&self) -> nat {
        self.inner.progress()
    }

    /// The triangles still to be tested.
    pub closed spec fn pending_prims(&self) -> Set<usize> {
        self.inner.remaining()
    }

    pub closed spec fn sphere_view(&self) -> Sphere {
        *self.query
    }

    pub closed spec fn triangles_view(&self) -> Seq<Triangle> {
        self.inner.bvh_view().triangles_view()
    }

    /// The contacts that the iteration has yet to yield.
    pub closed spec fn remaining(&self) -> Set<PrimitiveIntersection> {
        contacts_of(self.inner.bvh_view().triangles_view(), self.inner.remaining(), *self.query)
    }

    pub fn new(inner: BvhIterator<'a>, query: &'a Sphere) -> (r: Self)
        requires
            inner.wf(),
            inner.bvh_view().wf(),
            query.wf(),
            inner.query_view() == query.bounds_spec(),
        ensures
            r.wf(),
            r.remaining() == contacts_of(inner.bvh_view().triangles_view(), inner.remaining(), *query),
            r.pending_prims() == inner.remaining(),
            r.sphere_view() == *query,
            r.triangles_view() == inner.bvh_view().triangles_view(),
    {
        Self { inner, query }
    }

    /// The next contact, or `None` once there are no more.
    pub fn next(&mut self) -> (r: Option<PrimitiveIntersection>)
        requires
            old(self).wf(),
        ensures
            final(self).wf(),
            r matches None ==> old(self).remaining() == Set::<PrimitiveIntersection>::empty(),
            r matches Some(c) ==> old(self).remaining().contains(c) && old(self).remaining()
                == final(self).remaining().insert(c) && final(self).progress() < old(self).progress(),
            final(self).sphere_view() == old(self).sphere_view(),
            final(self).triangles_view() == old(self).triangles_view(),
            final(self).pending_prims().subset_of(old(self).pending_prims()),
            r matches None ==> forall|p: usize| #[trigger] old(self).pending_prims().contains(p)
                ==> contact_spec(old(self).sphere_view(), old(self).triangles_view()[p as int]) is None,
            r matches Some(c) ==> exists|p: usize| #[trigger] old(self).pending_prims().contains(p)
                && !final(self).pending_prims().contains(p) && contact_spec(
                old(self).sphere_view(),
                old(self).triangles_view()[p as int],
            ) == Some(c) && forall|q: usize| #[trigger] old(self).pending_prims().contains(q)
                && !final(self).pending_prims().contains(q) && q != p ==> contact_spec(
                old(self).sphere_view(),
                old(self).triangles_view()[q as int],
            ) is None,
    {
        let ghost tris = self.inner.bvh_view().triangles_view();
        let ghost start = self.remaining();
        loop
            invariant
                self.wf(),
                self.query == old(self).query,
                self.inner.bvh_view() == old(self).inner.bvh_view(),
                tris == self.inner.bvh_view().triangles_view(),
                start == old(self).remaining(),
                start == self.remaining(),
                self.inner.progress() <= old(self).inner.progress(),
                self.inner.remaining().subset_of(old(self).inner.remaining()),
                forall|p: usize| #[trigger] old(self).inner.remaining().contains(p)
                    && !self.inner.remaining().contains(p) ==> contact_spec(*self.query, tris[p as int]) is None,
            decreases self.inner.progress(),
        {
            let ghost before = self.inner.remaining();
            match self.inner.next() {
                None => {
                    proof {
                        assert(start =~= Set::<PrimitiveIntersection>::empty());
                    }
                    return None;
                },
                Some(primitive) => {
                    proof {
                        assert(tris[primitive as int].wf());
                    }
                    let found = self.query.intersects_triangle(self.inner.get_triangle(primitive));
                    match found {
                        Some(contact) => {
                            proof {
                                let after = self.inner.remaining();
                                assert(start =~= contacts_of(tris, after, *self.query).insert(contact)) by {
                                    assert forall|c: PrimitiveIntersection| start.contains(c) implies contacts_of(tris, after, *self.query).insert(contact).contains(c) by {
                                        let p = choose|p: usize| #[trigger] before.contains(p) && contact_spec(*self.query, tris[p as int]) == Some(c);
                                        if p != primitive {
                                            assert(after.contains(p));
                                        }
                                    }
                                    assert forall|c: PrimitiveIntersection| contacts_of(tris, after, *self.query).insert(contact).contains(c) implies start.contains(c) by {
                                        if c == contact {
                                            assert(before.contains(primitive));
                                        } else {
                                            let p = choose|p: usize| #[trigger] after.contains(p) && contact_spec(*self.query, tris[p as int]) == Some(c);
                                            assert(before.contains(p));
                                        }
                                    }
                                }
                            }
                            return Some(contact);
                        },
                        None => {
                            proof {
                                let after = self.inner.remaining();
                                assert(start =~= contacts_of(tris, after, *self.query)) by {
                                    assert forall|c: PrimitiveIntersection| start.contains(c) implies contacts_of(tris, after, *self.query).contains(c) by {
                                        let p = choose|p: usize| #[trigger] before.contains(p) && contact_spec(*self.query, tris[p as int]) == Some(c);
                                        if p != primitive {
                                            assert(after.contains(p));
                                        }
                                    }
                                    assert forall|c: PrimitiveIntersection| contacts_of(tris, after, *self.query).contains(c) implies start.contains(c) by {
                                        let p = choose|p: usize| #[trigger] after.contains(p) && contact_spec(*self.query, tris[p as int]) == Some(c);
                                        assert(before.contains(p));
                                    }
                                }
                            }
                        },
                    }
                },
            }
        }
    }
}

} // verus!
