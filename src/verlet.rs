//! Position-based dynamics for circular bodies: Verlet integration, a
//! circular container and pairwise separation, run in substeps.
//!
//! Lengths are integer units, time is microseconds, and accelerations are
//! units per second squared. Coordinates saturate at `WORLD_LIMIT` and
//! accelerations at `ACCEL_LIMIT`, so every step is defined.
use vstd::prelude::*;
use crate::arith::{ceil_root, clamp, clamp_to, div_toward_zero, quotient_toward_zero, floor_root, floor_sqrt};
use vstd::math::abs;
use crate::geometry::Vec2;

verus! {

/// Largest magnitude of a coordinate (`2^40`).
pub const WORLD_LIMIT: i64 = 1_099_511_627_776;

/// Largest magnitude of an acceleration component (`2^40`).
pub const ACCEL_LIMIT: i64 = 1_099_511_627_776;

/// Length units per pixel in the default configuration.
pub const UNITS_PER_PIXEL: i64 = 1_000_000;

/// Displacement that acceleration `a` adds over a step of `dt` microseconds:
/// `a * dt^2`, in units, rounded toward zero (a second is `10^6` microseconds).
pub open spec fn drift(a: int, dt: int) -> int {
    div_toward_zero(a * dt * dt, 1_000_000_000_000)
}

pub open spec fn in_world(p: Vec2) -> bool {
    &&& -WORLD_LIMIT <= p.x <= WORLD_LIMIT
    &&& -WORLD_LIMIT <= p.y <= WORLD_LIMIT
}

/// A point inside the world from its coordinates, saturating.
pub open spec fn world_point(x: int, y: int) -> Vec2 {
    Vec2 { x: clamp(x, WORLD_LIMIT as int) as i64, y: clamp(y, WORLD_LIMIT as int) as i64 }
}

/// A circular point mass. Its velocity is implicit: the difference between
/// the current and the previous position.
#[derive(Clone, Copy, Debug, PartialEq, Eq, Structural)]
pub struct VerletObject {
    pub position_current: Vec2,
    pub position_old: Vec2,
    pub acceleration: Vec2,
}

impl VerletObject {
    pub open spec fn wf(self) -> bool {
        &&& in_world(self.position_current)
        &&& in_world(self.position_old)
        &&& -ACCEL_LIMIT <= self.acceleration.x <= ACCEL_LIMIT
        &&& -ACCEL_LIMIT <= self.acceleration.y <= ACCEL_LIMIT
    }

    /// One Verlet step of `dt` microseconds: the new position is the current
    /// one plus the implicit velocity plus the drift of the accumulated
    /// acceleration; the current position becomes the old one, and the
    /// accumulator is emptied.
    pub open spec fn stepped(self, dt: int) -> VerletObject {
        let c = self.position_current;
        let o = self.position_old;
        VerletObject {
            position_current: world_point(
                c.x + (c.x - o.x) + drift(self.acceleration.x as int, dt),
                c.y + (c.y - o.y) + drift(self.acceleration.y as int, dt),
            ),
            position_old: c,
            acceleration: Vec2 { x: 0, y: 0 },
        }
    }

    /// The accumulator with `a` added, saturating.
    pub open spec fn accelerated(self, a: Vec2) -> VerletObject {
        VerletObject {
            acceleration: Vec2 {
                x: clamp(self.acceleration.x + a.x, ACCEL_LIMIT as int) as i64,
                y: clamp(self.acceleration.y + a.y, ACCEL_LIMIT as int) as i64,
            },
            ..self
        }
    }

    /// Held inside the circle of radius `limit` about the origin: a body
    /// farther out is brought onto the circle along the ray from the origin,
    /// dividing by the distance rounded up; one inside is left as it is.
    pub open spec fn confined(self, limit: int) -> VerletObject {
        let x = self.position_current.x as int;
        let y = self.position_current.y as int;
        if x * x + y * y > limit * limit {
            let c = ceil_root(x * x + y * y);
            VerletObject {
                position_current: world_point(
                    div_toward_zero(x * limit, c),
                    div_toward_zero(y * limit, c),
                ),
                ..self
            }
        } else {
            self
        }
    }

    /// A body at rest at `position`.
    pub fn new(position: Vec2) -> (r: VerletObject)
        requires
            in_world(position),
        ensures
            r.wf(),
            r.position_current == position,
            r.position_old == position,
            r.acceleration == (Vec2 { x: 0, y: 0 }),
    {
        VerletObject { position_current: position, position_old: position, acceleration: Vec2 { x: 0, y: 0 } }
    }

    pub fn update_position(&mut self, dt: u32)
        requires
            old(self).wf(),
        ensures
            final(self).wf(),
            *final(self) == old(self).stepped(dt as int),
    {
        let c = self.position_current;
        let o = self.position_old;
        let t = dt as i128;
        assert(-0x100_0000_0000_0000_0000_0000 <= self.acceleration.x * t
            <= 0x100_0000_0000_0000_0000_0000) by (nonlinear_arith)
            requires
                -ACCEL_LIMIT <= self.acceleration.x <= ACCEL_LIMIT,
                0 <= t <= 0xffff_ffff,
        ;
        assert(-0x100_0000_0000_0000_0000_0000_0000 <= self.acceleration.x * t * t
            <= 0x100_0000_0000_0000_0000_0000_0000) by (nonlinear_arith)
            requires
                -ACCEL_LIMIT <= self.acceleration.x <= ACCEL_LIMIT,
                0 <= t <= 0xffff_ffff,
        ;
        assert(-0x100_0000_0000_0000_0000_0000 <= self.acceleration.y * t
            <= 0x100_0000_0000_0000_0000_0000) by (nonlinear_arith)
            requires
                -ACCEL_LIMIT <= self.acceleration.y <= ACCEL_LIMIT,
                0 <= t <= 0xffff_ffff,
        ;
        assert(-0x100_0000_0000_0000_0000_0000_0000 <= self.acceleration.y * t * t
            <= 0x100_0000_0000_0000_0000_0000_0000) by (nonlinear_arith)
            requires
                -ACCEL_LIMIT <= self.acceleration.y <= ACCEL_LIMIT,
                0 <= t <= 0xffff_ffff,
        ;
        let scale: i128 = 1_000_000_000_000;
        let dx = quotient_toward_zero(self.acceleration.x as i128 * t * t, scale);
        let dy = quotient_toward_zero(self.acceleration.y as i128 * t * t, scale);
        proof {
            crate::arith::lemma_div_toward_zero_shrinks(self.acceleration.x * t * t, scale as int);
            crate::arith::lemma_div_toward_zero_shrinks(self.acceleration.y * t * t, scale as int);
        }
        let nx = c.x as i128 + (c.x as i128 - o.x as i128) + dx;
        let ny = c.y as i128 + (c.y as i128 - o.y as i128) + dy;
        self.position_old = c;
        self.position_current = Vec2 { x: clamp_to(nx, WORLD_LIMIT), y: clamp_to(ny, WORLD_LIMIT) };
        self.acceleration = Vec2 { x: 0, y: 0 };
    }

    /// Adds `acc` to the accumulator, saturating at `ACCEL_LIMIT`.
    pub fn accelerate(&mut self, acc: Vec2)
        requires
            old(self).wf(),
        ensures
            final(self).wf(),
            *final(self) == old(self).accelerated(acc),
    {
        let ax = clamp_to(self.acceleration.x as i128 + acc.x as i128, ACCEL_LIMIT);
        let ay = clamp_to(self.acceleration.y as i128 + acc.y as i128, ACCEL_LIMIT);
        self.acceleration = Vec2 { x: ax, y: ay };
    }
}


/// The push that the first of two bodies gets, and the second gets
/// reversed, when their centres are nearer than `contact`: half the overlap
/// along the axis between them (the distance rounded down). Coincident
/// centres are pushed apart along the x axis.
pub open spec fn push_x(a: VerletObject, b: VerletObject, contact: int) -> int {
    let ax = a.position_current.x - b.position_current.x;
    let ay = a.position_current.y - b.position_current.y;
    let n = ax * ax + ay * ay;
    if n >= contact * contact {
        0
    } else if n == 0 {
        contact / 2
    } else {
        div_toward_zero(ax * (contact - floor_root(n)), 2 * floor_root(n))
    }
}

pub open spec fn push_y(a: VerletObject, b: VerletObject, contact: int) -> int {
    let ax = a.position_current.x - b.position_current.x;
    let ay = a.position_current.y - b.position_current.y;
    let n = ax * ax + ay * ay;
    if n >= contact * contact || n == 0 {
        0
    } else {
        div_toward_zero(ay * (contact - floor_root(n)), 2 * floor_root(n))
    }
}

pub open spec fn moved(b: VerletObject, dx: int, dy: int) -> VerletObject {
    VerletObject {
        position_current: world_point(
            b.position_current.x + dx,
            b.position_current.y + dy,
        ),
        ..b
    }
}

/// Bodies `i` and `j` of `bs` after they are pushed apart.
pub open spec fn pair_resolved(bs: Seq<VerletObject>, i: int, j: int, contact: int) -> Seq<
    VerletObject,
> {
    let px = push_x(bs[i], bs[j], contact);
    let py = push_y(bs[i], bs[j], contact);
    bs.update(i, moved(bs[i], px, py)).update(j, moved(bs[j], -px, -py))
}

/// The pairs `(i, k)` for `i < k < j` resolved in order of `k`.
pub open spec fn row_resolved(bs: Seq<VerletObject>, i: int, j: int, contact: int) -> Seq<
    VerletObject,
>
    decreases j - i,
{
    if j <= i + 1 {
        bs
    } else {
        pair_resolved(row_resolved(bs, i, j - 1, contact), i, j - 1, contact)
    }
}

/// The rows of the first `k` bodies resolved in order.
pub open spec fn rows_resolved(bs: Seq<VerletObject>, k: int, contact: int) -> Seq<VerletObject>
    decreases k,
{
    if k <= 0 {
        bs
    } else {
        let prev = rows_resolved(bs, k - 1, contact);
        row_resolved(prev, k - 1, prev.len() as int, contact)
    }
}

/// One collision pass: every unordered pair once, `(0, 1), (0, 2), ...,
/// (1, 2), ...`, each seeing the positions that the pairs before it left.
pub open spec fn collided(bs: Seq<VerletObject>, contact: int) -> Seq<VerletObject> {
    rows_resolved(bs, bs.len() as int, contact)
}

pub open spec fn all_wf(bs: Seq<VerletObject>) -> bool {
    forall|i: int| 0 <= i < bs.len() ==> #[trigger] bs[i].wf()
}

pub open spec fn gravity_applied(bs: Seq<VerletObject>, g: Vec2) -> Seq<VerletObject> {
    Seq::new(bs.len(), |i: int| bs[i].accelerated(g))
}

pub open spec fn confined_all(bs: Seq<VerletObject>, limit: int) -> Seq<VerletObject> {
    Seq::new(bs.len(), |i: int| bs[i].confined(limit))
}

pub open spec fn stepped_all(bs: Seq<VerletObject>, dt: int) -> Seq<VerletObject> {
    Seq::new(bs.len(), |i: int| bs[i].stepped(dt))
}

/// One substep: gravity, the container, the collision pass, integration.
pub open spec fn substep(bs: Seq<VerletObject>, g: Vec2, limit: int, contact: int, dt: int) -> Seq<
    VerletObject,
> {
    stepped_all(collided(confined_all(gravity_applied(bs, g), limit), contact), dt)
}

pub open spec fn substeps(
    bs: Seq<VerletObject>,
    g: Vec2,
    limit: int,
    contact: int,
    dt: int,
    k: nat,
) -> Seq<VerletObject>
    decreases k,
{
    if k == 0 {
        bs
    } else {
        substep(substeps(bs, g, limit, contact, dt, (k - 1) as nat), g, limit, contact, dt)
    }
}

/// Body `b` confined to radius `limit`.
fn confine(b: VerletObject, limit: i64) -> (r: VerletObject)
    requires
        b.wf(),
        1 <= limit <= WORLD_LIMIT,
    ensures
        r.wf(),
        r == b.confined(limit as int),
{
    let x = b.position_current.x as i128;
    let y = b.position_current.y as i128;
    assert(x * x <= 0x1_0000_0000_0000_0000_0000) by (nonlinear_arith)
        requires -WORLD_LIMIT <= x <= WORLD_LIMIT;
    assert(y * y <= 0x1_0000_0000_0000_0000_0000) by (nonlinear_arith)
        requires -WORLD_LIMIT <= y <= WORLD_LIMIT;
    assert(0 <= x * x && 0 <= y * y) by (nonlinear_arith);
    assert(limit * limit <= 0x1_0000_0000_0000_0000_0000) by (nonlinear_arith)
        requires 1 <= limit <= WORLD_LIMIT;
    let n = x * x + y * y;
    let l = limit as i128;
    if n > l * l {
        let f = floor_sqrt(n as u128) as i128;
        let c = if f * f == n {
            f
        } else {
            f + 1
        };
        assert(c >= 1) by (nonlinear_arith)
            requires
                c == f || c == f + 1,
                c == f ==> f * f == n,
                n > 0,
                f >= 0,
        ;
        assert(-0x1_0000_0000_0000_0000_0000 <= x * l <= 0x1_0000_0000_0000_0000_0000) by (nonlinear_arith)
            requires -WORLD_LIMIT <= x <= WORLD_LIMIT, 1 <= l <= WORLD_LIMIT;
        assert(-0x1_0000_0000_0000_0000_0000 <= y * l <= 0x1_0000_0000_0000_0000_0000) by (nonlinear_arith)
            requires -WORLD_LIMIT <= y <= WORLD_LIMIT, 1 <= l <= WORLD_LIMIT;
        let qx = quotient_toward_zero(x * l, c);
        let qy = quotient_toward_zero(y * l, c);
        proof {
            crate::arith::lemma_div_toward_zero_shrinks(x * l, c as int);
            crate::arith::lemma_div_toward_zero_shrinks(y * l, c as int);
        }
        VerletObject {
            position_current: Vec2 { x: clamp_to(qx, WORLD_LIMIT), y: clamp_to(qy, WORLD_LIMIT) },
            ..b
        }
    } else {
        b
    }
}

/// Bodies `a` and `b` pushed apart.
fn separate(a: VerletObject, b: VerletObject, contact: i64) -> (r: (VerletObject, VerletObject))
    requires
        a.wf(),
        b.wf(),
        2 <= contact <= WORLD_LIMIT,
    ensures
        r.0.wf(),
        r.1.wf(),
        r.0 == moved(a, push_x(a, b, contact as int), push_y(a, b, contact as int)),
        r.1 == moved(b, -push_x(a, b, contact as int), -push_y(a, b, contact as int)),
{
    let ax = a.position_current.x as i128 - b.position_current.x as i128;
    let ay = a.position_current.y as i128 - b.position_current.y as i128;
    assert(ax * ax <= 0x4_0000_0000_0000_0000_0000) by (nonlinear_arith)
        requires -0x200_0000_0000 <= ax <= 0x200_0000_0000;
    assert(ay * ay <= 0x4_0000_0000_0000_0000_0000) by (nonlinear_arith)
        requires -0x200_0000_0000 <= ay <= 0x200_0000_0000;
    assert(0 <= ax * ax && 0 <= ay * ay) by (nonlinear_arith);
    let n = ax * ax + ay * ay;
    let k = contact as i128;
    assert(k * k <= 0x1_0000_0000_0000_0000_0000) by (nonlinear_arith)
        requires 2 <= k <= WORLD_LIMIT;
    let (px, py): (i128, i128) = if n >= k * k {
        (0, 0)
    } else if n == 0 {
        (k / 2, 0)
    } else {
        let d = floor_sqrt(n as u128) as i128;
        assert(1 <= d < k) by (nonlinear_arith)
            requires
                d * d <= n < (d + 1) * (d + 1),
                0 < n < k * k,
                d >= 0,
                k >= 2,
        ;
        let delta = k - d;
        assert(-0x2_0000_0000_0000_0000_0000 <= ax * delta <= 0x2_0000_0000_0000_0000_0000) by (nonlinear_arith)
            requires -0x200_0000_0000 <= ax <= 0x200_0000_0000, 1 <= delta <= WORLD_LIMIT;
        assert(-0x2_0000_0000_0000_0000_0000 <= ay * delta <= 0x2_0000_0000_0000_0000_0000) by (nonlinear_arith)
            requires -0x200_0000_0000 <= ay <= 0x200_0000_0000, 1 <= delta <= WORLD_LIMIT;
        let px = quotient_toward_zero(ax * delta, 2 * d);
        let py = quotient_toward_zero(ay * delta, 2 * d);
        proof {
            crate::arith::lemma_div_toward_zero_shrinks(ax * delta, 2 * d);
            crate::arith::lemma_div_toward_zero_shrinks(ay * delta, 2 * d);
        }
        (px, py)
    };
    let a2 = VerletObject {
        position_current: Vec2 {
            x: clamp_to(a.position_current.x as i128 + px, WORLD_LIMIT),
            y: clamp_to(a.position_current.y as i128 + py, WORLD_LIMIT),
        },
        ..a
    };
    let b2 = VerletObject {
        position_current: Vec2 {
            x: clamp_to(b.position_current.x as i128 - px, WORLD_LIMIT),
            y: clamp_to(b.position_current.y as i128 - py, WORLD_LIMIT),
        },
        ..b
    };
    (a2, b2)
}


proof fn lemma_moved_wf(b: VerletObject, dx: int, dy: int)
    requires
        b.wf(),
    ensures
        moved(b, dx, dy).wf(),
{
}

proof fn lemma_pair_keeps(bs: Seq<VerletObject>, i: int, j: int, contact: int)
    requires
        all_wf(bs),
        0 <= i < bs.len(),
        0 <= j < bs.len(),
    ensures
        pair_resolved(bs, i, j, contact).len() == bs.len(),
        all_wf(pair_resolved(bs, i, j, contact)),
{
    let px = push_x(bs[i], bs[j], contact);
    let py = push_y(bs[i], bs[j], contact);
    lemma_moved_wf(bs[i], px, py);
    lemma_moved_wf(bs[j], -px, -py);
}

proof fn lemma_row_keeps(bs: Seq<VerletObject>, i: int, j: int, contact: int)
    requires
        all_wf(bs),
        0 <= i < bs.len(),
        j <= bs.len(),
    ensures
        row_resolved(bs, i, j, contact).len() == bs.len(),
        all_wf(row_resolved(bs, i, j, contact)),
    decreases j - i,
{
    if j > i + 1 {
        lemma_row_keeps(bs, i, j - 1, contact);
        lemma_pair_keeps(row_resolved(bs, i, j - 1, contact), i, j - 1, contact);
    }
}

proof fn lemma_rows_keep(bs: Seq<VerletObject>, k: int, contact: int)
    requires
        all_wf(bs),
        k <= bs.len(),
    ensures
        rows_resolved(bs, k, contact).len() == bs.len(),
        all_wf(rows_resolved(bs, k, contact)),
    decreases k,
{
    if k > 0 {
        lemma_rows_keep(bs, k - 1, contact);
        let prev = rows_resolved(bs, k - 1, contact);
        lemma_row_keeps(prev, k - 1, prev.len() as int, contact);
    }
}

/// Bodies in a circular container about the origin, under uniform gravity.
pub struct Solver {
    gravity: Vec2,
    objects: Vec<VerletObject>,
    container_radius: i64,
    body_radius: i64,
    sub_steps: u32,
}

impl Solver {
    pub closed spec fn bodies(self) -> Seq<VerletObject> {
        self.objects@
    }

    pub closed spec fn gravity_of(self) -> Vec2 {
        self.gravity
    }

    pub closed spec fn container_radius_of(self) -> int {
        self.container_radius as int
    }

    pub closed spec fn body_radius_of(self) -> int {
        self.body_radius as int
    }

    pub closed spec fn sub_steps_of(self) -> nat {
        self.sub_steps as nat
    }

    /// How far from the origin a body's centre may be.
    pub open spec fn limit(self) -> int {
        self.container_radius_of() - self.body_radius_of()
    }

    /// The distance between two centres below which bodies overlap.
    pub open spec fn contact(self) -> int {
        2 * self.body_radius_of()
    }

    /// Sound configuration, and every body well formed.
    pub open spec fn wf(self) -> bool {
        &&& 1 <= self.body_radius_of()
        &&& 2 * self.body_radius_of() <= WORLD_LIMIT
        &&& self.body_radius_of() < self.container_radius_of() <= WORLD_LIMIT
        &&& self.sub_steps_of() >= 1
        &&& all_wf(self.bodies())
    }

    /// The configuration is that of `old`.
    pub open spec fn same_config(self, old: Solver) -> bool {
        &&& self.gravity_of() == old.gravity_of()
        &&& self.container_radius_of() == old.container_radius_of()
        &&& self.body_radius_of() == old.body_radius_of()
        &&& self.sub_steps_of() == old.sub_steps_of()
    }

    /// Gravity `(0, -1000)` pixels per second squared, a container of radius
    /// 350 pixels, bodies of radius 15 pixels, 8 substeps; no bodies.
    pub fn new() -> (r: Solver)
        ensures
            r.wf(),
            r.bodies() == Seq::<VerletObject>::empty(),
            r.gravity_of() == (Vec2 { x: 0, y: (-1000 * UNITS_PER_PIXEL) as i64 }),
            r.container_radius_of() == 350 * UNITS_PER_PIXEL,
            r.body_radius_of() == 15 * UNITS_PER_PIXEL,
            r.sub_steps_of() == 8,
    {
        Solver {
            gravity: Vec2 { x: 0, y: -1000 * UNITS_PER_PIXEL },
            objects: Vec::new(),
            container_radius: 350 * UNITS_PER_PIXEL,
            body_radius: 15 * UNITS_PER_PIXEL,
            sub_steps: 8,
        }
    }

    /// A solver with the given configuration and no bodies.
    pub fn with_config(gravity: Vec2, container_radius: i64, body_radius: i64, sub_steps: u32) -> (r: Solver)
        requires
            1 <= body_radius,
            2 * body_radius <= WORLD_LIMIT,
            body_radius < container_radius <= WORLD_LIMIT,
            sub_steps >= 1,
        ensures
            r.wf(),
            r.bodies() == Seq::<VerletObject>::empty(),
            r.gravity_of() == gravity,
            r.container_radius_of() == container_radius,
            r.body_radius_of() == body_radius,
            r.sub_steps_of() == sub_steps,
    {
        Solver { gravity, objects: Vec::new(), container_radius, body_radius, sub_steps }
    }

    pub fn objects(&self) -> (r: &Vec<VerletObject>)
        ensures
            r@ == self.bodies(),
    {
        &self.objects
    }

    /// Appends `object` to the bodies.
    pub fn add_object(&mut self, object: VerletObject)
        requires
            old(self).wf(),
            object.wf(),
        ensures
            final(self).wf(),
            final(self).same_config(*old(self)),
            final(self).bodies() == old(self).bodies().push(object),
    {
        self.objects.push(object);
    }

    /// Integrates every body over `dt` microseconds.
    pub fn update_positions(&mut self, dt: u32)
        requires
            old(self).wf(),
        ensures
            final(self).wf(),
            final(self).same_config(*old(self)),
            final(self).bodies() == stepped_all(old(self).bodies(), dt as int),
    {
        let ghost bs = self.objects@;
        let mut i: usize = 0;
        while i < self.objects.len()
            invariant
                self.objects@.len() == bs.len(),
                i <= bs.len(),
                all_wf(bs),
                forall|j: int| 0 <= j < i ==> #[trigger] self.objects@[j] == bs[j].stepped(dt as int),
                forall|j: int| i <= j < bs.len() ==> #[trigger] self.objects@[j] == bs[j],
                self.same_config(*old(self)),
                self.wf(),
            decreases bs.len() - i,
        {
            let mut o = self.objects[i];
            o.update_position(dt);
            self.objects[i] = o;
            i = i + 1;
        }
        proof {
            assert(self.objects@ =~= stepped_all(bs, dt as int));
        }
    }

    /// Adds gravity to every body's accumulator.
    pub fn apply_gravity(&mut self)
        requires
            old(self).wf(),
        ensures
            final(self).wf(),
            final(self).same_config(*old(self)),
            final(self).bodies() == gravity_applied(old(self).bodies(), old(self).gravity_of()),
    {
        let ghost bs = self.objects@;
        let g = self.gravity;
        let mut i: usize = 0;
        while i < self.objects.len()
            invariant
                self.objects@.len() == bs.len(),
                i <= bs.len(),
                all_wf(bs),
                g == self.gravity,
                forall|j: int| 0 <= j < i ==> #[trigger] self.objects@[j] == bs[j].accelerated(g),
                forall|j: int| i <= j < bs.len() ==> #[trigger] self.objects@[j] == bs[j],
                self.same_config(*old(self)),
                self.wf(),
            decreases bs.len() - i,
        {
            let mut o = self.objects[i];
            o.accelerate(g);
            self.objects[i] = o;
            i = i + 1;
        }
        proof {
            assert(self.objects@ =~= gravity_applied(bs, g));
        }
    }

    /// Brings every body that lies beyond the container's inner circle back
    /// onto it.
    pub fn apply_constraint(&mut self)
        requires
            old(self).wf(),
        ensures
            final(self).wf(),
            final(self).same_config(*old(self)),
            final(self).bodies() == confined_all(old(self).bodies(), old(self).limit()),
    {
        let ghost bs = self.objects@;
        let limit = self.container_radius - self.body_radius;
        let mut i: usize = 0;
        while i < self.objects.len()
            invariant
                self.objects@.len() == bs.len(),
                i <= bs.len(),
                all_wf(bs),
                limit == self.limit(),
                forall|j: int| 0 <= j < i ==> #[trigger] self.objects@[j] == bs[j].confined(limit as int),
                forall|j: int| i <= j < bs.len() ==> #[trigger] self.objects@[j] == bs[j],
                self.same_config(*old(self)),
                self.wf(),
            decreases bs.len() - i,
        {
            let o = confine(self.objects[i], limit);
            self.objects[i] = o;
            i = i + 1;
        }
        proof {
            assert(self.objects@ =~= confined_all(bs, limit as int));
        }
    }

    /// One pass over every unordered pair of bodies, in order, pushing apart
    /// each pair whose centres are nearer than twice the body radius.
    pub fn solve_collisions(&mut self)
        requires
            old(self).wf(),
        ensures
            final(self).wf(),
            final(self).same_config(*old(self)),
            final(self).bodies() == collided(old(self).bodies(), old(self).contact()),
    {
        let ghost bs = self.objects@;
        let contact = 2 * self.body_radius;
        let n = self.objects.len();
        let mut i: usize = 0;
        while i < n
            invariant
                n == bs.len(),
                i <= n,
                contact == self.contact(),
                self.objects@ == rows_resolved(bs, i as int, contact as int),
                self.same_config(*old(self)),
                self.wf(),
                all_wf(bs),
            decreases n - i,
        {
            proof {
                lemma_rows_keep(bs, i as int, contact as int);
            }
            let ghost start = self.objects@;
            let mut j: usize = i + 1;
            while j < n
                invariant
                    n == bs.len(),
                    i < j <= n,
                    contact == self.contact(),
                    start.len() == n,
                    all_wf(start),
                    self.objects@ == row_resolved(start, i as int, j as int, contact as int),
                    self.same_config(*old(self)),
                    self.wf(),
                decreases n - j,
            {
                proof {
                    lemma_row_keeps(start, i as int, j as int, contact as int);
                }
                let a = self.objects[i];
                let b = self.objects[j];
                let (a2, b2) = separate(a, b, contact);
                self.objects[i] = a2;
                self.objects[j] = b2;
                j = j + 1;
            }
            i = i + 1;
        }
        proof {
            lemma_rows_keep(bs, n as int, contact as int);
        }
    }

    /// Advances the simulation by `dt` microseconds in `sub_steps` equal
    /// substeps (the remainder of the division is dropped).
    pub fn update(&mut self, dt: u32)
        requires
            old(self).wf(),
        ensures
            final(self).wf(),
            final(self).same_config(*old(self)),
            final(self).bodies() == substeps(
                old(self).bodies(),
                old(self).gravity_of(),
                old(self).limit(),
                old(self).contact(),
                dt as int / old(self).sub_steps_of() as int,
                old(self).sub_steps_of(),
            ),
    {
        let ghost bs = self.objects@;
        let sub_dt = dt / self.sub_steps;
        let mut k: u32 = 0;
        while k < self.sub_steps
            invariant
                k <= self.sub_steps,
                sub_dt == dt as int / old(self).sub_steps_of() as int,
                self.same_config(*old(self)),
                self.wf(),
                self.objects@ == substeps(
                    bs,
                    self.gravity_of(),
                    self.limit(),
                    self.contact(),
                    sub_dt as int,
                    k as nat,
                ),
            decreases self.sub_steps - k,
        {
            self.apply_gravity();
            self.apply_constraint();
            self.solve_collisions();
            self.update_positions(sub_dt);
            k = k + 1;
        }
    }
}

} // verus!

verus! {

/// `n` Verlet steps of `dt` with nothing added to the accumulator.
pub open spec fn stepped_n(b: VerletObject, dt: int, n: nat) -> VerletObject
    decreases n,
{
    if n == 0 {
        b
    } else {
        stepped_n(b, dt, (n - 1) as nat).stepped(dt)
    }
}

/// `n` steps of `dt`, each after adding `g` to the accumulator.
pub open spec fn falling(b: VerletObject, g: Vec2, dt: int, n: nat) -> VerletObject
    decreases n,
{
    if n == 0 {
        b
    } else {
        falling(b, g, dt, (n - 1) as nat).accelerated(g).stepped(dt)
    }
}

/// A body at rest with an empty accumulator stays exactly where it is, for any
/// number of steps.
pub proof fn law_rest_is_kept(b: VerletObject, dt: int, n: nat)
    requires
        b.wf(),
        b.position_current == b.position_old,
        b.acceleration == (Vec2 { x: 0, y: 0 }),
    ensures
        stepped_n(b, dt, n) == b,
    decreases n,
{
    if n > 0 {
        law_rest_is_kept(b, dt, (n - 1) as nat);
    }
}

/// Under a constant acceleration `g`, a body that starts at rest moves, after
/// `n` steps, by `drift(g) * n * (n + 1) / 2` on each axis: the discrete
/// form of `g * t^2 / 2`, which it exceeds by `drift(g) * n / 2`. The path
/// must stay inside the world.
pub proof fn law_constant_acceleration(b: VerletObject, g: Vec2, dt: int, n: nat)
    requires
        b.wf(),
        b.position_current == b.position_old,
        b.acceleration == (Vec2 { x: 0, y: 0 }),
        -ACCEL_LIMIT <= g.x <= ACCEL_LIMIT,
        -ACCEL_LIMIT <= g.y <= ACCEL_LIMIT,
        2 * abs(b.position_current.x as int) + abs(drift(g.x as int, dt)) * n * (n + 1) <= 2
            * WORLD_LIMIT,
        2 * abs(b.position_current.y as int) + abs(drift(g.y as int, dt)) * n * (n + 1) <= 2
            * WORLD_LIMIT,
    ensures
        2 * (falling(b, g, dt, n).position_current.x - b.position_current.x) == drift(
            g.x as int,
            dt,
        ) * n * (n + 1),
        2 * (falling(b, g, dt, n).position_current.y - b.position_current.y) == drift(
            g.y as int,
            dt,
        ) * n * (n + 1),
        2 * (falling(b, g, dt, n).position_old.x - b.position_current.x) == drift(g.x as int, dt)
            * (n - 1) * n,
        2 * (falling(b, g, dt, n).position_old.y - b.position_current.y) == drift(g.y as int, dt)
            * (n - 1) * n,
        falling(b, g, dt, n).acceleration == (Vec2 { x: 0, y: 0 }),
    decreases n,
{
    if n > 0 {
        let m = (n - 1) as nat;
        let tx = drift(g.x as int, dt);
        let ty = drift(g.y as int, dt);
        assert(abs(tx) * m * (m + 1) <= abs(tx) * n * (n + 1)) by (nonlinear_arith)
            requires
                m + 1 == n,
                m >= 0,
        ;
        assert(abs(ty) * m * (m + 1) <= abs(ty) * n * (n + 1)) by (nonlinear_arith)
            requires
                m + 1 == n,
                m >= 0,
        ;
        law_constant_acceleration(b, g, dt, m);
        let p = falling(b, g, dt, m);
        let x0 = b.position_current.x as int;
        let y0 = b.position_current.y as int;
        assert(2 * (2 * p.position_current.x - p.position_old.x + tx - x0) == tx * n * (n + 1))
            by (nonlinear_arith)
            requires
                2 * (p.position_current.x - x0) == tx * m * (m + 1),
                2 * (p.position_old.x - x0) == tx * (m - 1) * m,
                m + 1 == n,
        ;
        assert(2 * (2 * p.position_current.y - p.position_old.y + ty - y0) == ty * n * (n + 1))
            by (nonlinear_arith)
            requires
                2 * (p.position_current.y - y0) == ty * m * (m + 1),
                2 * (p.position_old.y - y0) == ty * (m - 1) * m,
                m + 1 == n,
        ;
        assert(-2 * WORLD_LIMIT <= 2 * (2 * p.position_current.x - p.position_old.x + tx) <= 2 * WORLD_LIMIT)
            by (nonlinear_arith)
            requires
                2 * (2 * p.position_current.x - p.position_old.x + tx - x0) == tx * n * (n + 1),
                2 * abs(x0) + abs(tx) * n * (n + 1) <= 2 * WORLD_LIMIT,
                n >= 1,
        ;
        assert(-2 * WORLD_LIMIT <= 2 * (2 * p.position_current.y - p.position_old.y + ty) <= 2 * WORLD_LIMIT)
            by (nonlinear_arith)
            requires
                2 * (2 * p.position_current.y - p.position_old.y + ty - y0) == ty * n * (n + 1),
                2 * abs(y0) + abs(ty) * n * (n + 1) <= 2 * WORLD_LIMIT,
                n >= 1,
        ;
    }
}

/// After the container constraint a body lies within the limit circle. One
/// that was outside lands on the ray through it at distance `limit`, up to
/// rounding: each coordinate is the former one scaled by `limit / c`,
/// rounded toward zero, where `c` is the distance rounded up.
pub proof fn law_confined_within(b: VerletObject, limit: int)
    requires
        b.wf(),
        1 <= limit <= WORLD_LIMIT,
    ensures
        ({
            let q = b.confined(limit).position_current;
            q.x * q.x + q.y * q.y <= limit * limit
        }),
        ({
            let x = b.position_current.x as int;
            let y = b.position_current.y as int;
            let q = b.confined(limit).position_current;
            let c = ceil_root(x * x + y * y);
            x * x + y * y > limit * limit ==> {
                &&& c * c >= x * x + y * y
                &&& (c - 1) * (c - 1) < x * x + y * y
                &&& (x >= 0 ==> q.x >= 0 && c * q.x <= x * limit < c * (q.x + 1))
                &&& (x < 0 ==> q.x <= 0 && c * (-q.x) <= -(x * limit) < c * (-q.x + 1))
                &&& (y >= 0 ==> q.y >= 0 && c * q.y <= y * limit < c * (q.y + 1))
                &&& (y < 0 ==> q.y <= 0 && c * (-q.y) <= -(y * limit) < c * (-q.y + 1))
            }
        }),
{
    let x = b.position_current.x as int;
    let y = b.position_current.y as int;
    let n = x * x + y * y;
    if n > limit * limit {
        assert(n >= 0) by (nonlinear_arith)
            requires n == x * x + y * y;
        crate::arith::lemma_ceil_root(n);
        let c = ceil_root(n);
        let qx = div_toward_zero(x * limit, c);
        let qy = div_toward_zero(y * limit, c);
        lemma_quotient_square(x * limit, c);
        lemma_quotient_square(y * limit, c);
        let cc = c * c;
        let ll = limit * limit;
        let s = qx * qx + qy * qy;
        assert(x * limit * (x * limit) + y * limit * (y * limit) == n * ll) by (nonlinear_arith)
            requires n == x * x + y * y, ll == limit * limit;
        assert(s * cc <= n * ll) by (nonlinear_arith)
            requires
                qx * qx * cc <= x * limit * (x * limit),
                qy * qy * cc <= y * limit * (y * limit),
                x * limit * (x * limit) + y * limit * (y * limit) == n * ll,
                s == qx * qx + qy * qy,
        ;
        assert(n * ll <= cc * ll) by (nonlinear_arith)
            requires cc >= n, ll >= 0;
        assert(cc >= 1) by (nonlinear_arith)
            requires cc == c * c, c >= 1;
        assert(s <= ll) by (nonlinear_arith)
            requires s * cc <= cc * ll, cc >= 1;
        assert(-limit <= qx <= limit) by (nonlinear_arith)
            requires qx * qx + qy * qy <= limit * limit, limit >= 1;
        assert(-limit <= qy <= limit) by (nonlinear_arith)
            requires qx * qx + qy * qy <= limit * limit, limit >= 1;
        crate::arith::lemma_div_toward_zero_brackets(x * limit, c);
        crate::arith::lemma_div_toward_zero_brackets(y * limit, c);
        crate::arith::lemma_floor_root_exists(n);
        let f = floor_root(n);
        if f * f != n {
            assert(c == f + 1);
            assert((c - 1) * (c - 1) < n);
        } else {
            assert(f != 0);
            assert((f - 1) * (f - 1) < f * f) by (nonlinear_arith)
                requires f >= 1;
            assert((c - 1) * (c - 1) < n);
        }
        let q = b.confined(limit).position_current;
        assert(q.x == qx && q.y == qy);
        if x < 0 {
            assert(x * limit < 0) by (nonlinear_arith)
                requires x < 0, limit >= 1;
        }
        if y < 0 {
            assert(y * limit < 0) by (nonlinear_arith)
                requires y < 0, limit >= 1;
        }
    }
}

/// `|a / d| * d <= |a|`, squared.
proof fn lemma_quotient_square(a: int, d: int)
    requires
        d >= 1,
    ensures
        div_toward_zero(a, d) * div_toward_zero(a, d) * (d * d) <= a * a,
{
    let m = if a >= 0 { a } else { -a };
    let q = m / d;
    vstd::arithmetic::div_mod::lemma_fundamental_div_mod(m, d);
    vstd::arithmetic::div_mod::lemma_div_pos_is_pos(m, d);
    assert(0 <= q * d <= m) by (nonlinear_arith)
        requires
            m == d * q + m % d,
            0 <= m % d,
            q >= 0,
            d >= 1,
    ;
    assert(q * q * (d * d) <= m * m) by (nonlinear_arith)
        requires 0 <= q * d <= m;
    assert(div_toward_zero(a, d) * div_toward_zero(a, d) == q * q) by (nonlinear_arith)
        requires div_toward_zero(a, d) == q || div_toward_zero(a, d) == -q;
    assert(a * a == m * m) by (nonlinear_arith)
        requires a == m || a == -m;
}

/// Two bodies make one pair: the collision pass pushes them apart by equal
/// and opposite displacements, the push of `push_x`/`push_y`, so long as
/// neither leaves the world. Coincident bodies end `contact` apart (rounded
/// down to even) along the x axis.
pub proof fn law_pair_split_evenly(a: VerletObject, b: VerletObject, contact: int)
    requires
        a.wf(),
        b.wf(),
        -WORLD_LIMIT <= a.position_current.x + push_x(a, b, contact) <= WORLD_LIMIT,
        -WORLD_LIMIT <= a.position_current.y + push_y(a, b, contact) <= WORLD_LIMIT,
        -WORLD_LIMIT <= b.position_current.x - push_x(a, b, contact) <= WORLD_LIMIT,
        -WORLD_LIMIT <= b.position_current.y - push_y(a, b, contact) <= WORLD_LIMIT,
    ensures
        collided(seq![a, b], contact).len() == 2,
        collided(seq![a, b], contact)[0].position_current.x - a.position_current.x == push_x(
            a,
            b,
            contact,
        ),
        collided(seq![a, b], contact)[0].position_current.y - a.position_current.y == push_y(
            a,
            b,
            contact,
        ),
        collided(seq![a, b], contact)[1].position_current.x - b.position_current.x == -push_x(
            a,
            b,
            contact,
        ),
        collided(seq![a, b], contact)[1].position_current.y - b.position_current.y == -push_y(
            a,
            b,
            contact,
        ),
        a.position_current == b.position_current && contact >= 0 ==> collided(seq![a, b], contact)[0].position_current.x
            - collided(seq![a, b], contact)[1].position_current.x == 2 * (contact / 2),
{
    let bs = seq![a, b];
    assert(rows_resolved(bs, 0, contact) == bs);
    assert(row_resolved(bs, 0, 1, contact) == bs);
    assert(row_resolved(bs, 0, 2, contact) == pair_resolved(bs, 0, 1, contact));
    let p = pair_resolved(bs, 0, 1, contact);
    assert(rows_resolved(bs, 1, contact) == p);
    assert(row_resolved(p, 1, 2, contact) == p);
    assert(rows_resolved(bs, 2, contact) == p);
    if a.position_current == b.position_current && contact >= 0 {
        let ax = a.position_current.x - b.position_current.x;
        let ay = a.position_current.y - b.position_current.y;
        assert(ax * ax + ay * ay == 0) by (nonlinear_arith)
            requires ax == 0, ay == 0;
        if contact > 0 {
            assert(contact * contact > 0) by (nonlinear_arith)
                requires contact > 0;
        }
    }
}

} // verus!

verus! {

/// Whether two circles overlap: their centres are nearer than the sum of the
/// radii.
pub fn circle_circle_collision(pos_a: Vec2, radius_a: i64, pos_b: Vec2, radius_b: i64) -> (r: bool)
    requires
        in_world(pos_a),
        in_world(pos_b),
        0 <= radius_a <= WORLD_LIMIT,
        0 <= radius_b <= WORLD_LIMIT,
    ensures
        r == ((pos_b.x - pos_a.x) * (pos_b.x - pos_a.x) + (pos_b.y - pos_a.y) * (pos_b.y - pos_a.y)
            < (radius_a + radius_b) * (radius_a + radius_b)),
{
    let dx = pos_b.x as i128 - pos_a.x as i128;
    let dy = pos_b.y as i128 - pos_a.y as i128;
    let s = radius_a as i128 + radius_b as i128;
    assert(0 <= dx * dx <= 0x4_0000_0000_0000_0000_0000) by (nonlinear_arith)
        requires -0x200_0000_0000 <= dx <= 0x200_0000_0000;
    assert(0 <= dy * dy <= 0x4_0000_0000_0000_0000_0000) by (nonlinear_arith)
        requires -0x200_0000_0000 <= dy <= 0x200_0000_0000;
    assert(0 <= s * s <= 0x4_0000_0000_0000_0000_0000) by (nonlinear_arith)
        requires 0 <= s <= 0x200_0000_0000;
    dx * dx + dy * dy < s * s
}

} // verus!

verus! {

proof fn lemma_offset_scaled(u: int, d: int, contact: int)
    requires
        1 <= d < contact,
    ensures
        ({
            let o = u + 2 * div_toward_zero(u * (contact - d), 2 * d);
            &&& u >= 0 ==> o >= u && d * o <= contact * u < d * (o + 2)
            &&& u < 0 ==> o <= u && d * (-o) <= contact * (-u) < d * (-o + 2)
        }),
{
    let delta = contact - d;
    let m = u * delta;
    let p = div_toward_zero(m, 2 * d);
    crate::arith::lemma_div_toward_zero_brackets(m, 2 * d);
    if u >= 0 {
        assert(m >= 0) by (nonlinear_arith)
            requires u >= 0, delta >= 1, m == u * delta;
        assert(d * (u + 2 * p) <= contact * u < d * (u + 2 * p + 2)) by (nonlinear_arith)
            requires
                2 * d * p <= m < 2 * d * (p + 1),
                m == u * delta,
                contact == d + delta,
        ;
    } else {
        assert(m < 0) by (nonlinear_arith)
            requires u < 0, delta >= 1, m == u * delta;
        assert(d * (-(u + 2 * p)) <= contact * (-u) < d * (-(u + 2 * p) + 2)) by (nonlinear_arith)
            requires
                2 * d * (-p) <= -m < 2 * d * (-p + 1),
                m == u * delta,
                contact == d + delta,
        ;
    }
}

/// Two overlapping bodies that do not coincide are pushed to the contact
/// distance, up to rounding: each component `o` of the new offset between
/// their centres keeps the sign of the old component `u`, and
/// `d * |o| <= contact * |u| < d * (|o| + 2)`, where `d <= |(ux, uy)|` is the
/// old distance rounded down. So `(o_x, o_y)` is `(u_x, u_y) * contact / d`,
/// at least `contact` long, less under two units per component of rounding.
pub proof fn law_pair_reaches_contact(a: VerletObject, b: VerletObject, contact: int)
    requires
        contact >= 2,
        ({
            let ux = a.position_current.x - b.position_current.x;
            let uy = a.position_current.y - b.position_current.y;
            0 < ux * ux + uy * uy < contact * contact
        }),
    ensures
        ({
            let ux = a.position_current.x - b.position_current.x;
            let uy = a.position_current.y - b.position_current.y;
            let d = floor_root(ux * ux + uy * uy);
            let ox = ux + 2 * push_x(a, b, contact);
            let oy = uy + 2 * push_y(a, b, contact);
            &&& 1 <= d < contact
            &&& d * d <= ux * ux + uy * uy
            &&& (ux >= 0 ==> ox >= ux && d * ox <= contact * ux < d * (ox + 2))
            &&& (ux < 0 ==> ox <= ux && d * (-ox) <= contact * (-ux) < d * (-ox + 2))
            &&& (uy >= 0 ==> oy >= uy && d * oy <= contact * uy < d * (oy + 2))
            &&& (uy < 0 ==> oy <= uy && d * (-oy) <= contact * (-uy) < d * (-oy + 2))
        }),
{
    let ux = a.position_current.x - b.position_current.x;
    let uy = a.position_current.y - b.position_current.y;
    let n = ux * ux + uy * uy;
    crate::arith::lemma_floor_root_exists(n);
    let d = floor_root(n);
    assert(1 <= d < contact) by (nonlinear_arith)
        requires
            d * d <= n < (d + 1) * (d + 1),
            0 < n < contact * contact,
            d >= 0,
            contact >= 2,
    ;
    lemma_offset_scaled(ux, d, contact);
    lemma_offset_scaled(uy, d, contact);
}

} // verus!
