//! A region quadtree over closed rectangles, indexing object ids by position.
//!
//! A node keeps up to `capacity` ids of its own. Once full it splits into four
//! quadrants, once and for good, and every later insertion that reaches it is
//! handed to all four children; each child keeps the id only if the position
//! lies in its own closed rectangle. Ids stored before the split stay where they
//! are: capacity bounds what a node takes from then on, not how much lies below.
//!
//! The host rebuilds the whole tree every frame (`rebuild_quadtree`), which
//! costs `O(n log n)` per frame; `insert`, `remove` and
//! `update_entity_position` are there for incremental upkeep but the frame
//! loop does not rely on them.
use vstd::prelude::*;
use crate::geometry::{Rectangle, Vec2};
use std::collections::HashSet;

verus! {

broadcast use vstd::std_specs::hash::group_hash_axioms;

/// Upper-left quadrant: the lower halves of both extents.
pub open spec fn north_west_of(b: Rectangle) -> Rectangle {
    Rectangle { x: b.x, y: b.y, width: (b.width / 2) as i64, height: (b.height / 2) as i64 }
}

/// Quadrant beside the upper-left one; it takes the odd unit of width.
pub open spec fn north_east_of(b: Rectangle) -> Rectangle {
    Rectangle {
        x: (b.x + b.width / 2) as i64,
        y: b.y,
        width: (b.width - b.width / 2) as i64,
        height: (b.height / 2) as i64,
    }
}

/// Quadrant below the upper-left one; it takes the odd unit of height.
pub open spec fn south_west_of(b: Rectangle) -> Rectangle {
    Rectangle {
        x: b.x,
        y: (b.y + b.height / 2) as i64,
        width: (b.width / 2) as i64,
        height: (b.height - b.height / 2) as i64,
    }
}

/// Quadrant opposite the upper-left one.
pub open spec fn south_east_of(b: Rectangle) -> Rectangle {
    Rectangle {
        x: (b.x + b.width / 2) as i64,
        y: (b.y + b.height / 2) as i64,
        width: (b.width - b.width / 2) as i64,
        height: (b.height - b.height / 2) as i64,
    }
}

/// Some insertion recorded in `pts` put `id` at a position inside `rect`.
pub open spec fn placed_in(pts: Set<(u64, Vec2)>, id: u64, rect: Rectangle) -> bool {
    exists|q: Vec2| #[trigger] pts.contains((id, q)) && rect.holds(q)
}

proof fn lemma_quadrants_cover(b: Rectangle, p: Vec2)
    requires
        b.wf(),
        b.holds(p),
    ensures
        north_west_of(b).holds(p) || north_east_of(b).holds(p) || south_west_of(b).holds(p)
            || south_east_of(b).holds(p),
        b.solid() ==> (north_west_of(b).solid() && north_west_of(b).holds(p)) || (north_east_of(
            b,
        ).solid() && north_east_of(b).holds(p)) || (south_west_of(b).solid() && south_west_of(
            b,
        ).holds(p)) || (south_east_of(b).solid() && south_east_of(b).holds(p)),
{
}

/// Every rectangle that `bounding_box` may give for `id` strictly overlaps `range`.
pub open spec fn box_must_meet<F: Fn(u64) -> Rectangle>(bounding_box: F, id: u64, range: Rectangle) -> bool {
    forall|b: Rectangle| #[trigger] bounding_box.ensures((id,), b) ==> b.meets(range)
}

/// Some rectangle that `bounding_box` may give for `id` strictly overlaps `range`.
pub open spec fn box_may_meet<F: Fn(u64) -> Rectangle>(bounding_box: F, id: u64, range: Rectangle) -> bool {
    exists|b: Rectangle| #[trigger] bounding_box.ensures((id,), b) && b.meets(range)
}

/// A node of the tree: its rectangle, the ids it keeps itself, and, once
/// split, its four quadrants.
pub struct Quadtree {
    boundary: Rectangle,
    capacity: usize,
    objects: Vec<u64>,
    subdivided: bool,
    north_west: Option<Box<Quadtree>>,
    north_east: Option<Box<Quadtree>>,
    south_west: Option<Box<Quadtree>>,
    south_east: Option<Box<Quadtree>>,
}

/// Where `id` stands in `v`, if anywhere.
fn position_of(v: &Vec<u64>, id: u64) -> (r: Option<usize>)
    ensures
        match r {
            Some(i) => i < v@.len() && v@[i as int] == id,
            None => !v@.contains(id),
        },
{
    let mut i: usize = 0;
    while i < v.len()
        invariant
            i <= v@.len(),
            forall|j: int| 0 <= j < i ==> v@[j] != id,
        decreases v@.len() - i,
    {
        if v[i] == id {
            return Some(i);
        }
        i = i + 1;
    }
    None
}

proof fn lemma_remove_at(a: Seq<u64>, i: int)
    requires
        a.no_duplicates(),
        0 <= i < a.len(),
    ensures
        a.remove(i).to_set() == a.to_set().remove(a[i]),
        a.remove(i).no_duplicates(),
{
    let b = a.remove(i);
    assert forall|x: u64| b.contains(x) <==> (a.contains(x) && x != a[i]) by {
        if b.contains(x) {
            let j = choose|j: int| 0 <= j < b.len() && b[j] == x;
            if j < i {
                assert(a[j] == x);
            } else {
                assert(a[j + 1] == x);
            }
        }
        if a.contains(x) && x != a[i] {
            let j = choose|j: int| 0 <= j < a.len() && a[j] == x;
            if j < i {
                assert(b[j] == x);
            } else {
                assert(b[j - 1] == x);
            }
        }
    }
    assert(b.to_set() =~= a.to_set().remove(a[i]));
}

impl Quadtree {
    pub closed spec fn boundary_of(self) -> Rectangle {
        self.boundary
    }

    pub closed spec fn capacity_of(self) -> nat {
        self.capacity as nat
    }

    pub closed spec fn is_subdivided(self) -> bool {
        self.subdivided
    }

    /// The ids that this node keeps itself.
    pub closed spec fn stored(self) -> Set<u64> {
        self.objects@.to_set()
    }

    spec fn child_ok(c: Option<Box<Quadtree>>, cap: usize, rect: Rectangle) -> bool
        decreases c,
    {
        match c {
            Some(n) => n.wf() && n.capacity == cap && n.boundary == rect,
            None => true,
        }
    }

    /// Structural soundness: the rectangle is well formed, every node keeps
    /// distinct ids within its capacity, and a split node has exactly its four
    /// quadrants as children.
    pub closed spec fn wf(self) -> bool
        decreases self,
    {
        &&& self.boundary.wf()
        &&& self.capacity >= 1
        &&& self.objects@.len() <= self.capacity
        &&& self.objects@.no_duplicates()
        &&& self.subdivided == self.north_west.is_some()
        &&& self.subdivided == self.north_east.is_some()
        &&& self.subdivided == self.south_west.is_some()
        &&& self.subdivided == self.south_east.is_some()
        &&& Self::child_ok(self.north_west, self.capacity, north_west_of(self.boundary))
        &&& Self::child_ok(self.north_east, self.capacity, north_east_of(self.boundary))
        &&& Self::child_ok(self.south_west, self.capacity, south_west_of(self.boundary))
        &&& Self::child_ok(self.south_east, self.capacity, south_east_of(self.boundary))
    }

    spec fn child_within(c: Option<Box<Quadtree>>) -> bool
        decreases c,
    {
        match c {
            Some(n) => n.within_capacity(),
            None => true,
        }
    }

    /// No node keeps more ids than the capacity.
    pub closed spec fn within_capacity(self) -> bool
        decreases self,
    {
        &&& self.objects@.len() <= self.capacity
        &&& Self::child_within(self.north_west)
        &&& Self::child_within(self.north_east)
        &&& Self::child_within(self.south_west)
        &&& Self::child_within(self.south_east)
    }

    spec fn child_ids(c: Option<Box<Quadtree>>) -> Set<u64>
        decreases c,
    {
        match c {
            Some(n) => n.ids(),
            None => Set::empty(),
        }
    }

    /// Every id kept anywhere in the tree.
    pub closed spec fn ids(self) -> Set<u64>
        decreases self,
    {
        self.stored().union(Self::child_ids(self.north_west)).union(
            Self::child_ids(self.north_east),
        ).union(Self::child_ids(self.south_west)).union(Self::child_ids(self.south_east))
    }

    spec fn child_found(c: Option<Box<Quadtree>>, range: Rectangle) -> Set<u64>
        decreases c,
    {
        match c {
            Some(n) => n.found_in(range),
            None => Set::empty(),
        }
    }

    /// What a broad-phase query for `range` reports: the ids kept by every
    /// node whose rectangle strictly overlaps `range` and whose ancestors all do.
    pub closed spec fn found_in(self, range: Rectangle) -> Set<u64>
        decreases self,
    {
        if self.boundary.meets(range) {
            self.stored().union(Self::child_found(self.north_west, range)).union(
                Self::child_found(self.north_east, range),
            ).union(Self::child_found(self.south_west, range)).union(
                Self::child_found(self.south_east, range),
            )
        } else {
            Set::empty()
        }
    }

    spec fn child_lands(c: Option<Box<Quadtree>>, id: u64, p: Vec2, solid: bool) -> bool
        decreases c,
    {
        match c {
            Some(n) => n.lands(id, p, solid),
            None => false,
        }
    }

    /// `id` is kept at the end of a path from this node down through nodes
    /// whose rectangles all hold `p` (and, if `solid`, all have positive
    /// extent).
    pub closed spec fn lands(self, id: u64, p: Vec2, solid: bool) -> bool
        decreases self,
    {
        &&& self.boundary.holds(p)
        &&& (solid ==> self.boundary.solid())
        &&& (self.stored().contains(id) || Self::child_lands(self.north_west, id, p, solid)
            || Self::child_lands(self.north_east, id, p, solid) || Self::child_lands(
            self.south_west,
            id,
            p,
            solid,
        ) || Self::child_lands(self.south_east, id, p, solid))
    }

    spec fn child_contained(c: Option<Box<Quadtree>>, pts: Set<(u64, Vec2)>) -> bool
        decreases c,
    {
        match c {
            Some(n) => n.contained(pts),
            None => true,
        }
    }

    /// Every id kept at a node was inserted, per `pts`, at a position inside
    /// that node's rectangle.
    pub closed spec fn contained(self, pts: Set<(u64, Vec2)>) -> bool
        decreases self,
    {
        &&& forall|id: u64| #[trigger]
            self.objects@.contains(id) ==> placed_in(pts, id, self.boundary)
        &&& Self::child_contained(self.north_west, pts)
        &&& Self::child_contained(self.north_east, pts)
        &&& Self::child_contained(self.south_west, pts)
        &&& Self::child_contained(self.south_east, pts)
    }

    spec fn child_grows(a: Option<Box<Quadtree>>, b: Option<Box<Quadtree>>) -> bool
        decreases a,
    {
        match a {
            Some(x) => match b {
                Some(y) => x.grows_into(*y),
                None => false,
            },
            None => true,
        }
    }

    /// `next` extends this node: same rectangle and capacity, no kept id lost,
    /// and a split already made is kept with the same children, themselves
    /// extended.
    pub closed spec fn grows_into(self, next: Quadtree) -> bool
        decreases self,
    {
        &&& next.boundary == self.boundary
        &&& next.capacity == self.capacity
        &&& self.stored().subset_of(next.stored())
        &&& (self.subdivided ==> next.subdivided)
        &&& Self::child_grows(self.north_west, next.north_west)
        &&& Self::child_grows(self.north_east, next.north_east)
        &&& Self::child_grows(self.south_west, next.south_west)
        &&& Self::child_grows(self.south_east, next.south_east)
    }

    spec fn child_rank(c: Option<Box<Quadtree>>) -> nat
        decreases c,
    {
        match c {
            Some(n) => n.rank(),
            None => 0,
        }
    }

    /// Bounds the depth that an insertion can recurse to.
    pub closed spec fn rank(self) -> nat
        decreases self,
    {
        if self.subdivided {
            2 + Self::child_rank(self.north_west) + Self::child_rank(self.north_east)
                + Self::child_rank(self.south_west) + Self::child_rank(self.south_east)
        } else if self.objects@.len() < self.capacity {
            0
        } else {
            1
        }
    }


    /// What an insertion of `id` at `p` makes of this tree.
    pub open spec fn inserted(self, next: Quadtree, id: u64, p: Vec2) -> bool {
        &&& next.wf()
        &&& next.within_capacity()
        &&& next.boundary_of() == self.boundary_of()
        &&& next.capacity_of() == self.capacity_of()
        &&& (self.is_subdivided() ==> next.is_subdivided())
        &&& self.grows_into(next)
        &&& (!self.boundary_of().holds(p) ==> next == self)
        &&& next.ids() == (if self.boundary_of().holds(p) {
            self.ids().insert(id)
        } else {
            self.ids()
        })
        &&& (self.boundary_of().holds(p) ==> next.lands(id, p, false))
        &&& (self.boundary_of().holds(p) && self.boundary_of().solid() ==> next.lands(
            id,
            p,
            true,
        ))
        &&& forall|pts: Set<(u64, Vec2)>| #[trigger]
            self.contained(pts) ==> next.contained(pts.insert((id, p)))
    }

    proof fn lemma_grows_refl(self)
        ensures
            self.grows_into(self),
        decreases self,
    {
        if let Some(c) = self.north_west {
            c.lemma_grows_refl();
        }
        if let Some(c) = self.north_east {
            c.lemma_grows_refl();
        }
        if let Some(c) = self.south_west {
            c.lemma_grows_refl();
        }
        if let Some(c) = self.south_east {
            c.lemma_grows_refl();
        }
    }

    proof fn lemma_contained_more(self, pts: Set<(u64, Vec2)>, more: Set<(u64, Vec2)>)
        requires
            self.contained(pts),
            pts.subset_of(more),
        ensures
            self.contained(more),
        decreases self,
    {
        assert forall|id: u64| #[trigger] self.objects@.contains(id) implies placed_in(
            more,
            id,
            self.boundary,
        ) by {
            let q = choose|q: Vec2| #[trigger] pts.contains((id, q)) && self.boundary.holds(q);
            assert(more.contains((id, q)));
        }
        if let Some(c) = self.north_west {
            c.lemma_contained_more(pts, more);
        }
        if let Some(c) = self.north_east {
            c.lemma_contained_more(pts, more);
        }
        if let Some(c) = self.south_west {
            c.lemma_contained_more(pts, more);
        }
        if let Some(c) = self.south_east {
            c.lemma_contained_more(pts, more);
        }
    }

    proof fn lemma_wf_within(self)
        requires
            self.wf(),
        ensures
            self.within_capacity(),
        decreases self,
    {
        if let Some(c) = self.north_west {
            c.lemma_wf_within();
        }
        if let Some(c) = self.north_east {
            c.lemma_wf_within();
        }
        if let Some(c) = self.south_west {
            c.lemma_wf_within();
        }
        if let Some(c) = self.south_east {
            c.lemma_wf_within();
        }
    }

    /// A node that keeps nothing and has never been split.
    pub closed spec fn is_empty_leaf(self) -> bool {
        &&& self.objects@.len() == 0
        &&& !self.subdivided
        &&& self.north_west.is_none()
        &&& self.north_east.is_none()
        &&& self.south_west.is_none()
        &&& self.south_east.is_none()
    }

    /// A fresh, empty node over `rect`.
    spec fn fresh(c: Option<Box<Quadtree>>, cap: usize, rect: Rectangle) -> bool {
        &&& c.is_some()
        &&& c.unwrap().wf()
        &&& c.unwrap().boundary == rect
        &&& c.unwrap().capacity == cap
        &&& c.unwrap().is_empty_leaf()
    }

    fn subdivide(&mut self)
        requires
            old(self).wf(),
            !old(self).subdivided,
        ensures
            final(self).subdivided,
            final(self).boundary == old(self).boundary,
            final(self).capacity == old(self).capacity,
            final(self).objects == old(self).objects,
            Self::fresh(final(self).north_west, old(self).capacity, north_west_of(old(self).boundary)),
            Self::fresh(final(self).north_east, old(self).capacity, north_east_of(old(self).boundary)),
            Self::fresh(final(self).south_west, old(self).capacity, south_west_of(old(self).boundary)),
            Self::fresh(final(self).south_east, old(self).capacity, south_east_of(old(self).boundary)),
    {
        let half_width = self.boundary.width / 2;
        let half_height = self.boundary.height / 2;
        let x = self.boundary.x;
        let y = self.boundary.y;
        let rest_width = self.boundary.width - half_width;
        let rest_height = self.boundary.height - half_height;
        let nw = Rectangle { x, y, width: half_width, height: half_height };
        let ne = Rectangle { x: x + half_width, y, width: rest_width, height: half_height };
        let sw = Rectangle { x, y: y + half_height, width: half_width, height: rest_height };
        let se = Rectangle {
            x: x + half_width,
            y: y + half_height,
            width: rest_width,
            height: rest_height,
        };
        self.north_west = Some(Box::new(Quadtree::new(nw, self.capacity)));
        self.north_east = Some(Box::new(Quadtree::new(ne, self.capacity)));
        self.south_west = Some(Box::new(Quadtree::new(sw, self.capacity)));
        self.south_east = Some(Box::new(Quadtree::new(se, self.capacity)));
        self.subdivided = true;
    }


    fn insert_into(child: &mut Option<Box<Quadtree>>, entity: u64, position: Vec2)
        requires
            old(child).is_some(),
            old(child).unwrap().wf(),
        ensures
            final(child).is_some(),
            old(child).unwrap().inserted(*final(child).unwrap(), entity, position),
        decreases old(child).unwrap().rank(), 1nat,
    {
        let mut node = child.take().unwrap();
        node.insert(entity, position);
        *child = Some(node);
    }

    /// Adds `entity` at `position`. A position outside the rectangle is
    /// ignored. A node with room keeps the id itself (an id it already keeps
    /// changes nothing); a full node splits, if it has not yet, and hands the
    /// id to each of its four children.
    pub fn insert(&mut self, entity: u64, position: Vec2)
        requires
            old(self).wf(),
        ensures
            old(self).inserted(*final(self), entity, position),
        decreases old(self).rank(), 0nat,
    {
        let ghost s0 = *self;
        if !self.boundary.contains(position) {
            proof {
                s0.lemma_grows_refl();
                s0.lemma_wf_within();
                assert forall|pts: Set<(u64, Vec2)>| #[trigger] s0.contained(pts) implies s0.contained(
                    pts.insert((entity, position)),
                ) by {
                    s0.lemma_contained_more(pts, pts.insert((entity, position)));
                }
            }
            return;
        }
        if self.objects.len() < self.capacity {
            if position_of(&self.objects, entity).is_none() {
                self.objects.push(entity);
                proof {
                    let a = s0.objects@;
                    let b = self.objects@;
                    assert(b[a.len() as int] == entity);
                    assert forall|x: u64| b.contains(x) <==> (a.contains(x) || x == entity) by {
                        if a.contains(x) {
                            let i = choose|i: int| 0 <= i < a.len() && a[i] == x;
                            assert(b[i] == x);
                        }
                    }
                }
            }
            proof {
                let s1 = *self;
                assert(s1.objects@.to_set() =~= s0.objects@.to_set().insert(entity));
                assert(s1.stored().contains(entity));
                if let Some(c) = s0.north_west {
                    c.lemma_grows_refl();
                }
                if let Some(c) = s0.north_east {
                    c.lemma_grows_refl();
                }
                if let Some(c) = s0.south_west {
                    c.lemma_grows_refl();
                }
                if let Some(c) = s0.south_east {
                    c.lemma_grows_refl();
                }
                s1.lemma_wf_within();
                assert(s1.ids() =~= s0.ids().insert(entity));
                assert forall|pts: Set<(u64, Vec2)>| #[trigger] s0.contained(pts) implies s1.contained(
                    pts.insert((entity, position)),
                ) by {
                    let more = pts.insert((entity, position));
                    assert forall|id: u64| #[trigger] s1.objects@.contains(id) implies placed_in(
                        more,
                        id,
                        s1.boundary,
                    ) by {
                        if id == entity {
                            assert(more.contains((id, position)));
                        } else {
                            assert(s0.objects@.contains(id));
                            let q = choose|q: Vec2| #[trigger] pts.contains((id, q)) && s0.boundary.holds(q);
                            assert(more.contains((id, q)));
                        }
                    }
                    if let Some(c) = s0.north_west {
                        c.lemma_contained_more(pts, more);
                    }
                    if let Some(c) = s0.north_east {
                        c.lemma_contained_more(pts, more);
                    }
                    if let Some(c) = s0.south_west {
                        c.lemma_contained_more(pts, more);
                    }
                    if let Some(c) = s0.south_east {
                        c.lemma_contained_more(pts, more);
                    }
                }
            }
        } else {
            if !self.subdivided {
                self.subdivide();
            }
            let ghost s1 = *self;
            Self::insert_into(&mut self.north_west, entity, position);
            Self::insert_into(&mut self.north_east, entity, position);
            Self::insert_into(&mut self.south_west, entity, position);
            Self::insert_into(&mut self.south_east, entity, position);
            proof {
                let s2 = *self;
                lemma_quadrants_cover(s0.boundary, position);
                assert(s2.wf());
                s2.lemma_wf_within();
                assert(s2.ids() =~= s0.ids().insert(entity));
                assert forall|pts: Set<(u64, Vec2)>| #[trigger] s0.contained(pts) implies s2.contained(
                    pts.insert((entity, position)),
                ) by {
                    let more = pts.insert((entity, position));
                    assert(s1.north_west.unwrap().contained(pts));
                    assert(s1.north_east.unwrap().contained(pts));
                    assert(s1.south_west.unwrap().contained(pts));
                    assert(s1.south_east.unwrap().contained(pts));
                    assert forall|id: u64| #[trigger] s2.objects@.contains(id) implies placed_in(
                        more,
                        id,
                        s2.boundary,
                    ) by {
                        assert(s0.objects@.contains(id));
                        let q = choose|q: Vec2| #[trigger] pts.contains((id, q)) && s0.boundary.holds(q);
                        assert(more.contains((id, q)));
                    }
                }
            }
        }
    }


    /// Reports, into `found`, every id kept by a node whose rectangle strictly
    /// overlaps `range`, descending only through such nodes. An id is a
    /// candidate: its own position need not lie in `range`.
    pub fn query(&self, range: &Rectangle, found: &mut HashSet<u64>)
        requires
            self.wf(),
        ensures
            final(found)@ == old(found)@.union(self.found_in(*range)),
        decreases self,
    {
        let ghost f0 = found@;
        if !self.boundary.intersects(range) {
            proof {
                assert(f0.union(self.found_in(*range)) =~= f0);
            }
            return;
        }
        let mut i: usize = 0;
        while i < self.objects.len()
            invariant
                i <= self.objects@.len(),
                forall|x: u64|
                    #[trigger] found@.contains(x) <==> (f0.contains(x) || exists|j: int|
                        0 <= j < i && self.objects@[j] == x),
            decreases self.objects@.len() - i,
        {
            found.insert(self.objects[i]);
            i = i + 1;
        }
        let ghost f1 = found@;
        proof {
            assert(f1 =~= f0.union(self.stored()));
        }
        if self.subdivided {
            if let Some(c) = &self.north_west {
                c.query(range, found);
            }
            if let Some(c) = &self.north_east {
                c.query(range, found);
            }
            if let Some(c) = &self.south_west {
                c.query(range, found);
            }
            if let Some(c) = &self.south_east {
                c.query(range, found);
            }
        }
        proof {
            assert(found@ =~= f0.union(self.found_in(*range)));
        }
    }

    /// The narrower variant of [`Quadtree::query`]: a candidate is reported only
    /// where the rectangle that `bounding_box` gives for it strictly overlaps
    /// `range`.
    pub fn query_bounding_boxes<F: Fn(u64) -> Rectangle>(
        &self,
        range: &Rectangle,
        found: &mut HashSet<u64>,
        bounding_box: &F,
    )
        requires
            self.wf(),
            forall|id: u64| bounding_box.requires((id,)),
        ensures
            old(found)@.subset_of(final(found)@),
            forall|id: u64| #[trigger]
                final(found)@.contains(id) ==> old(found)@.contains(id) || (self.found_in(
                    *range,
                ).contains(id) && box_may_meet(*bounding_box, id, *range)),
            forall|id: u64| #[trigger]
                self.found_in(*range).contains(id) && box_must_meet(*bounding_box, id, *range)
                    ==> final(found)@.contains(id),
        decreases self,
    {
        let ghost f0 = found@;
        if !self.boundary.intersects(range) {
            return;
        }
        let mut i: usize = 0;
        while i < self.objects.len()
            invariant
                i <= self.objects@.len(),
                forall|id: u64| #[trigger] bounding_box.requires((id,)),
                f0.subset_of(found@),
                forall|x: u64| #[trigger]
                    found@.contains(x) ==> f0.contains(x) || (self.stored().contains(x)
                        && box_may_meet(*bounding_box, x, *range)),
                forall|j: int|
                    0 <= j < i && box_must_meet(*bounding_box, #[trigger] self.objects@[j], *range)
                        ==> found@.contains(self.objects@[j]),
            decreases self.objects@.len() - i,
        {
            let id = self.objects[i];
            let b = bounding_box(id);
            if b.intersects(range) {
                found.insert(id);
            }
            i = i + 1;
        }
        let ghost f1 = found@;
        if self.subdivided {
            if let Some(c) = &self.north_west {
                c.query_bounding_boxes(range, found, bounding_box);
            }
            let ghost f2 = found@;
            if let Some(c) = &self.north_east {
                c.query_bounding_boxes(range, found, bounding_box);
            }
            let ghost f3 = found@;
            if let Some(c) = &self.south_west {
                c.query_bounding_boxes(range, found, bounding_box);
            }
            let ghost f4 = found@;
            if let Some(c) = &self.south_east {
                c.query_bounding_boxes(range, found, bounding_box);
            }
            proof {
                assert forall|id: u64|
                    self.found_in(*range).contains(id) && box_must_meet(
                        *bounding_box,
                        id,
                        *range,
                    ) implies found@.contains(id) by {
                    if self.stored().contains(id) {
                        let j = choose|j: int| 0 <= j < self.objects@.len() && self.objects@[j] == id;
                        assert(f1.contains(self.objects@[j]));
                    } else if Self::child_found(self.north_west, *range).contains(id) {
                        assert(self.north_west.unwrap().found_in(*range).contains(id));
                        assert(f2.contains(id));
                    } else if Self::child_found(self.north_east, *range).contains(id) {
                        assert(self.north_east.unwrap().found_in(*range).contains(id));
                        assert(f3.contains(id));
                    } else if Self::child_found(self.south_west, *range).contains(id) {
                        assert(self.south_west.unwrap().found_in(*range).contains(id));
                        assert(f4.contains(id));
                    } else {
                        assert(self.south_east.unwrap().found_in(*range).contains(id));
                    }
                }
            }
        } else {
            proof {
                assert forall|id: u64|
                    self.found_in(*range).contains(id) && box_must_meet(
                        *bounding_box,
                        id,
                        *range,
                    ) implies found@.contains(id) by {
                    let j = choose|j: int| 0 <= j < self.objects@.len() && self.objects@[j] == id;
                    assert(f1.contains(self.objects@[j]));
                }
            }
        }
    }

    spec fn child_outline(c: Option<Box<Quadtree>>) -> Seq<Rectangle>
        decreases c,
    {
        match c {
            Some(n) => n.outline(),
            None => Seq::empty(),
        }
    }

    /// The rectangles of all nodes, each node before its children, the
    /// children in the order north-west, north-east, south-west, south-east.
    pub closed spec fn outline(self) -> Seq<Rectangle>
        decreases self,
    {
        seq![self.boundary] + Self::child_outline(self.north_west) + Self::child_outline(
            self.north_east,
        ) + Self::child_outline(self.south_west) + Self::child_outline(self.south_east)
    }

    /// Appends the rectangles of all nodes to `out`, for drawing the tree.
    pub fn collect_boundaries(&self, out: &mut Vec<Rectangle>)
        requires
            self.wf(),
        ensures
            final(out)@ == old(out)@ + self.outline(),
        decreases self,
    {
        let ghost o0 = out@;
        out.push(self.boundary);
        if self.subdivided {
            if let Some(c) = &self.north_west {
                c.collect_boundaries(out);
            }
            if let Some(c) = &self.north_east {
                c.collect_boundaries(out);
            }
            if let Some(c) = &self.south_west {
                c.collect_boundaries(out);
            }
            if let Some(c) = &self.south_east {
                c.collect_boundaries(out);
            }
        }
        proof {
            assert(out@ =~= o0 + self.outline());
        }
    }

    /// What a removal of `id` given at `p` makes of this tree: nothing changes
    /// where `p` lies outside the rectangle; else a node that keeps `id` drops
    /// it and stops there, and one that does not passes the removal to all of
    /// its children.
    pub closed spec fn removes(self, next: Quadtree, id: u64, p: Vec2) -> bool
        decreases self,
    {
        if !self.boundary.holds(p) {
            next == self
        } else if self.stored().contains(id) {
            &&& next.stored() == self.stored().remove(id)
            &&& next.boundary == self.boundary
            &&& next.capacity == self.capacity
            &&& next.subdivided == self.subdivided
            &&& next.north_west == self.north_west
            &&& next.north_east == self.north_east
            &&& next.south_west == self.south_west
            &&& next.south_east == self.south_east
        } else {
            &&& next.objects == self.objects
            &&& next.boundary == self.boundary
            &&& next.capacity == self.capacity
            &&& next.subdivided == self.subdivided
            &&& Self::child_removes(self.north_west, next.north_west, id, p)
            &&& Self::child_removes(self.north_east, next.north_east, id, p)
            &&& Self::child_removes(self.south_west, next.south_west, id, p)
            &&& Self::child_removes(self.south_east, next.south_east, id, p)
        }
    }

    spec fn child_removes(a: Option<Box<Quadtree>>, b: Option<Box<Quadtree>>, id: u64, p: Vec2) -> bool
        decreases a,
    {
        match a {
            Some(x) => match b {
                Some(y) => x.removes(*y, id, p),
                None => false,
            },
            None => b.is_none(),
        }
    }

    fn remove_from(child: &mut Option<Box<Quadtree>>, entity: u64, position: Vec2)
        requires
            old(child).is_some(),
            old(child).unwrap().wf(),
        ensures
            final(child).is_some(),
            final(child).unwrap().wf(),
            old(child).unwrap().removes(*final(child).unwrap(), entity, position),
            final(child).unwrap().ids().subset_of(old(child).unwrap().ids()),
            old(child).unwrap().ids().remove(entity).subset_of(final(child).unwrap().ids()),
        decreases old(child).unwrap().rank(), 1nat,
    {
        let mut node = child.take().unwrap();
        node.remove(entity, position);
        *child = Some(node);
    }

    /// Removes `entity`, looked for along the nodes that hold `position`.
    pub fn remove(&mut self, entity: u64, position: Vec2)
        requires
            old(self).wf(),
        ensures
            final(self).wf(),
            final(self).within_capacity(),
            final(self).boundary_of() == old(self).boundary_of(),
            final(self).capacity_of() == old(self).capacity_of(),
            old(self).removes(*final(self), entity, position),
            !old(self).boundary_of().holds(position) ==> *final(self) == *old(self),
            old(self).boundary_of().holds(position) && old(self).stored().contains(entity)
                ==> final(self).stored() == old(self).stored().remove(entity),
            final(self).ids().subset_of(old(self).ids()),
            old(self).ids().remove(entity).subset_of(final(self).ids()),
        decreases old(self).rank(), 0nat,
    {
        let ghost s0 = *self;
        if !self.boundary.contains(position) {
            proof {
                s0.lemma_wf_within();
            }
            return;
        }
        match position_of(&self.objects, entity) {
            Some(i) => {
                self.objects.remove(i);
                proof {
                    lemma_remove_at(s0.objects@, i as int);
                    assert(self.ids() =~= self.stored().union(s0.ids().remove(entity)).union(
                        Self::child_ids(self.north_west)).union(Self::child_ids(self.north_east)).union(
                        Self::child_ids(self.south_west)).union(Self::child_ids(self.south_east)));
                    self.lemma_wf_within();
                }
                return;
            }
            None => {},
        }
        if self.subdivided {
            Self::remove_from(&mut self.north_west, entity, position);
            Self::remove_from(&mut self.north_east, entity, position);
            Self::remove_from(&mut self.south_west, entity, position);
            Self::remove_from(&mut self.south_east, entity, position);
        }
        proof {
            self.lemma_wf_within();
        }
    }

    /// Moves `entity` from `old_position` to `new_position`. The removal is
    /// made only where `old_position` lies outside this node's own rectangle,
    /// and the removal itself looks only inside it, so at any node it changes
    /// nothing: the call amounts to an insertion at `new_position`.
    pub fn update_entity_position(&mut self, entity: u64, old_position: Vec2, new_position: Vec2)
        requires
            old(self).wf(),
        ensures
            old(self).inserted(*final(self), entity, new_position),
    {
        if !self.boundary.contains(old_position) {
            self.remove(entity, old_position);
        }
        self.insert(entity, new_position);
    }

    pub fn new(boundary: Rectangle, capacity: usize) -> (r: Quadtree)
        requires
            boundary.wf(),
            capacity >= 1,
        ensures
            r.wf(),
            r.is_empty_leaf(),
            r.within_capacity(),
            r.boundary_of() == boundary,
            r.capacity_of() == capacity,
            !r.is_subdivided(),
            r.ids() == Set::<u64>::empty(),
            r.stored() == Set::<u64>::empty(),
            forall|pts: Set<(u64, Vec2)>| #[trigger] r.contained(pts),
    {
        let r = Quadtree {
            boundary,
            capacity,
            objects: Vec::new(),
            subdivided: false,
            north_west: None,
            north_east: None,
            south_west: None,
            south_east: None,
        };
        proof {
            assert(r.objects@.to_set() =~= Set::<u64>::empty());
            assert(r.ids() =~= Set::<u64>::empty());
        }
        r
    }
}

} // verus!

verus! {

/// Reports the candidates for `query_range`: the ids that [`Quadtree::query`]
/// gives into an empty set.
pub fn check_for_collisions(quadtree: &Quadtree, query_range: Rectangle) -> (r: HashSet<u64>)
    requires
        quadtree.wf(),
    ensures
        r@ == quadtree.found_in(query_range),
{
    let mut found = HashSet::new();
    quadtree.query(&query_range, &mut found);
    proof {
        assert(found@ =~= quadtree.found_in(query_range));
    }
    found
}

/// Growth keeps every placement: an id kept at the end of a path of nodes that
/// hold `p` is still kept at the end of such a path once the tree has grown.
pub proof fn law_growth_keeps_placement(a: Quadtree, b: Quadtree, id: u64, p: Vec2, solid: bool)
    requires
        a.grows_into(b),
        a.lands(id, p, solid),
    ensures
        b.lands(id, p, solid),
    decreases a,
{
    if a.stored().contains(id) {
    } else if Quadtree::child_lands(a.north_west, id, p, solid) {
        law_growth_keeps_placement(*a.north_west.unwrap(), *b.north_west.unwrap(), id, p, solid);
    } else if Quadtree::child_lands(a.north_east, id, p, solid) {
        law_growth_keeps_placement(*a.north_east.unwrap(), *b.north_east.unwrap(), id, p, solid);
    } else if Quadtree::child_lands(a.south_west, id, p, solid) {
        law_growth_keeps_placement(*a.south_west.unwrap(), *b.south_west.unwrap(), id, p, solid);
    } else {
        law_growth_keeps_placement(*a.south_east.unwrap(), *b.south_east.unwrap(), id, p, solid);
    }
}

/// Growth composes: a node split once keeps that split, with the same
/// children grown, through any run of insertions.
pub proof fn law_growth_composes(a: Quadtree, b: Quadtree, c: Quadtree)
    requires
        a.grows_into(b),
        b.grows_into(c),
    ensures
        a.grows_into(c),
    decreases a,
{
    if let Some(x) = a.north_west {
        law_growth_composes(*x, *b.north_west.unwrap(), *c.north_west.unwrap());
    }
    if let Some(x) = a.north_east {
        law_growth_composes(*x, *b.north_east.unwrap(), *c.north_east.unwrap());
    }
    if let Some(x) = a.south_west {
        law_growth_composes(*x, *b.south_west.unwrap(), *c.south_west.unwrap());
    }
    if let Some(x) = a.south_east {
        law_growth_composes(*x, *b.south_east.unwrap(), *c.south_east.unwrap());
    }
}

/// Growth keeps every candidate: what a query reported before the tree grew,
/// it reports after.
pub proof fn law_growth_keeps_candidates(a: Quadtree, b: Quadtree, range: Rectangle)
    requires
        a.grows_into(b),
    ensures
        a.found_in(range).subset_of(b.found_in(range)),
    decreases a,
{
    if let Some(c) = a.north_west {
        law_growth_keeps_candidates(*c, *b.north_west.unwrap(), range);
    }
    if let Some(c) = a.north_east {
        law_growth_keeps_candidates(*c, *b.north_east.unwrap(), range);
    }
    if let Some(c) = a.south_west {
        law_growth_keeps_candidates(*c, *b.south_west.unwrap(), range);
    }
    if let Some(c) = a.south_east {
        law_growth_keeps_candidates(*c, *b.south_east.unwrap(), range);
    }
}

/// A query reports only ids that the tree keeps.
pub proof fn law_candidates_are_kept(t: Quadtree, range: Rectangle)
    ensures
        t.found_in(range).subset_of(t.ids()),
    decreases t,
{
    if let Some(c) = t.north_west {
        law_candidates_are_kept(*c, range);
    }
    if let Some(c) = t.north_east {
        law_candidates_are_kept(*c, range);
    }
    if let Some(c) = t.south_west {
        law_candidates_are_kept(*c, range);
    }
    if let Some(c) = t.south_east {
        law_candidates_are_kept(*c, range);
    }
}

/// A query over a range that encloses the root's rectangle, the rectangle
/// itself among them, reports every id placed along a path of nodes of
/// positive extent; an insertion inside a root of positive extent places its
/// id so.
pub proof fn law_enclosing_query_finds(t: Quadtree, id: u64, p: Vec2, range: Rectangle)
    requires
        t.wf(),
        t.lands(id, p, true),
        range.encloses(t.boundary_of()),
    ensures
        t.found_in(range).contains(id),
    decreases t,
{
    let b = t.boundary;
    assert(range.encloses(north_west_of(b)));
    assert(range.encloses(north_east_of(b)));
    assert(range.encloses(south_west_of(b)));
    assert(range.encloses(south_east_of(b)));
    if t.stored().contains(id) {
    } else if Quadtree::child_lands(t.north_west, id, p, true) {
        law_enclosing_query_finds(*t.north_west.unwrap(), id, p, range);
    } else if Quadtree::child_lands(t.north_east, id, p, true) {
        law_enclosing_query_finds(*t.north_east.unwrap(), id, p, range);
    } else if Quadtree::child_lands(t.south_west, id, p, true) {
        law_enclosing_query_finds(*t.south_west.unwrap(), id, p, range);
    } else {
        law_enclosing_query_finds(*t.south_east.unwrap(), id, p, range);
    }
}

/// The query is conservative: it reports every id inserted at a position in
/// the open interior of the range. (A point on the range's edge can be missed,
/// since overlap is strict.)
pub proof fn law_query_is_conservative(t: Quadtree, id: u64, p: Vec2, range: Rectangle)
    requires
        t.lands(id, p, false),
        range.strictly_holds(p),
    ensures
        t.found_in(range).contains(id),
    decreases t,
{
    if t.stored().contains(id) {
    } else if Quadtree::child_lands(t.north_west, id, p, false) {
        law_query_is_conservative(*t.north_west.unwrap(), id, p, range);
    } else if Quadtree::child_lands(t.north_east, id, p, false) {
        law_query_is_conservative(*t.north_east.unwrap(), id, p, range);
    } else if Quadtree::child_lands(t.south_west, id, p, false) {
        law_query_is_conservative(*t.south_west.unwrap(), id, p, range);
    } else {
        law_query_is_conservative(*t.south_east.unwrap(), id, p, range);
    }
}

} // verus!

verus! {

/// The rectangle of a window `width` by `height` centred on the origin (the
/// odd unit, if any, on the positive side).
pub open spec fn window_rect(width: i64, height: i64) -> Rectangle {
    Rectangle {
        x: (-(width / 2)) as i64,
        y: (-(height / 2)) as i64,
        width,
        height,
    }
}

/// The ids among `objects` whose positions lie in `rect`.
pub open spec fn ids_within(objects: Seq<(u64, Vec2)>, rect: Rectangle) -> Set<u64> {
    Set::new(|id: u64| exists|i: int| 0 <= i < objects.len() && #[trigger] objects[i].0 == id && rect.holds(objects[i].1))
}

/// Builds this frame's index from scratch: a tree of capacity 4 over the
/// window centred on the origin, with every object inserted in order.
pub fn rebuild_quadtree(width: i64, height: i64, objects: &Vec<(u64, Vec2)>) -> (r: Quadtree)
    requires
        width >= 0,
        height >= 0,
    ensures
        r.wf(),
        r.boundary_of() == window_rect(width, height),
        r.capacity_of() == 4,
        r.ids() == ids_within(objects@, window_rect(width, height)),
        r.contained(objects@.to_set()),
        forall|i: int|
            0 <= i < objects@.len() && window_rect(width, height).holds(#[trigger] objects@[i].1)
                ==> r.lands(objects@[i].0, objects@[i].1, false),
        forall|i: int|
            0 <= i < objects@.len() && window_rect(width, height).solid() && window_rect(
                width,
                height,
            ).holds(#[trigger] objects@[i].1) ==> r.lands(objects@[i].0, objects@[i].1, true),
        window_rect(width, height).solid() ==> r.found_in(window_rect(width, height)) == r.ids(),
{
    let boundary = Rectangle { x: -(width / 2), y: -(height / 2), width, height };
    let ghost b = boundary;
    let ghost all = objects@;
    let mut tree = Quadtree::new(boundary, 4);
    let mut i: usize = 0;
    proof {
        assert(ids_within(all.subrange(0, 0), b) =~= Set::<u64>::empty());
    }
    while i < objects.len()
        invariant
            all == objects@,
            b == boundary,
            b == window_rect(width, height),
            i <= all.len(),
            tree.wf(),
            tree.boundary_of() == b,
            tree.capacity_of() == 4,
            tree.ids() == ids_within(all.subrange(0, i as int), b),
            tree.contained(all.subrange(0, i as int).to_set()),
            forall|j: int|
                0 <= j < i && b.holds(#[trigger] all[j].1) ==> tree.lands(all[j].0, all[j].1, false),
            forall|j: int|
                0 <= j < i && b.solid() && b.holds(#[trigger] all[j].1) ==> tree.lands(
                    all[j].0,
                    all[j].1,
                    true,
                ),
        decreases all.len() - i,
    {
        let (id, pos) = objects[i];
        let ghost before = tree;
        tree.insert(id, pos);
        proof {
            let pre = all.subrange(0, i as int);
            let post = all.subrange(0, i as int + 1);
            assert(post.to_set() =~= pre.to_set().insert((id, pos))) by {
                assert(post =~= pre.push((id, pos)));
                assert forall|x: (u64, Vec2)| post.contains(x) <==> (pre.contains(x) || x == (id, pos)) by {
                    if pre.contains(x) {
                        let k = choose|k: int| 0 <= k < pre.len() && pre[k] == x;
                        assert(post[k] == x);
                    }
                    if x == (id, pos) {
                        assert(post[i as int] == x);
                    }
                }
            }
            assert(before.contained(pre.to_set()));
            assert(tree.ids() =~= ids_within(post, b)) by {
                assert forall|x: u64| ids_within(post, b).contains(x) <==> tree.ids().contains(x) by {
                    if ids_within(post, b).contains(x) {
                        let k = choose|k: int| 0 <= k < post.len() && #[trigger] post[k].0 == x && b.holds(post[k].1);
                        if k < i {
                            assert(pre[k] == post[k]);
                            assert(ids_within(pre, b).contains(x));
                        }
                    }
                    if tree.ids().contains(x) && x != id {
                        assert(ids_within(pre, b).contains(x));
                        let k = choose|k: int| 0 <= k < pre.len() && #[trigger] pre[k].0 == x && b.holds(pre[k].1);
                        assert(post[k] == pre[k]);
                    }
                    if tree.ids().contains(x) && x == id && !b.holds(pos) {
                        assert(ids_within(pre, b).contains(x));
                        let k = choose|k: int| 0 <= k < pre.len() && #[trigger] pre[k].0 == x && b.holds(pre[k].1);
                        assert(post[k] == pre[k]);
                    }
                    if x == id && b.holds(pos) {
                        assert(post[i as int].0 == x);
                    }
                }
            }
            assert forall|j: int| 0 <= j < i + 1 && b.holds(#[trigger] all[j].1) implies tree.lands(
                all[j].0,
                all[j].1,
                false,
            ) by {
                if j < i {
                    law_growth_keeps_placement(before, tree, all[j].0, all[j].1, false);
                }
            }
            assert forall|j: int| 0 <= j < i + 1 && b.solid() && b.holds(#[trigger] all[j].1) implies tree.lands(
                all[j].0,
                all[j].1,
                true,
            ) by {
                if j < i {
                    law_growth_keeps_placement(before, tree, all[j].0, all[j].1, true);
                }
            }
        }
        i = i + 1;
    }
    proof {
        assert(all.subrange(0, all.len() as int) =~= all);
        if b.solid() {
            law_candidates_are_kept(tree, b);
            assert forall|x: u64| tree.ids().contains(x) implies tree.found_in(b).contains(x) by {
                let k = choose|k: int| 0 <= k < all.len() && #[trigger] all[k].0 == x && b.holds(all[k].1);
                law_enclosing_query_finds(tree, x, all[k].1, b);
            }
            assert(tree.found_in(b) =~= tree.ids());
        }
    }
    tree
}

} // verus!
