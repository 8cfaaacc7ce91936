use vstd::prelude::*;
use crate::geometry::{Point, div_floor};
use crate::canvas::{isqrt, Canvas, BlendMode, HEIGHT, coord_ok, curve_fold, curve_steps, line_fold, line_steps};
use crate::random::{random_usize, random_i64};

verus! {

/// Microseconds in one frame at thirty frames a second, rounded down.
pub const FRAME_US: u64 = 33333;
/// Horizontal pixels gained per pixel of fall along the landing slope.
pub const SLOPE_DIVISOR: i64 = 16;
/// Palette entry used for particle trails.
pub const PARTICLE_COLOR: u8 = 2;
/// Speeds of new particles stay below this many pixels a frame.
pub const SPEED_LIMIT: i64 = 15;

/// `v`, held to the range of `i64`.
pub open spec fn sat(v: int) -> i64 {
    if v < i64::MIN { i64::MIN } else if v > i64::MAX { i64::MAX } else { v as i64 }
}

fn sat_add(a: i64, b: i64) -> (r: i64)
    ensures
        r == sat(a + b),
{
    let v: i128 = a as i128 + b as i128;
    if v < i64::MIN as i128 {
        i64::MIN
    } else if v > i64::MAX as i128 {
        i64::MAX
    } else {
        v as i64
    }
}

#[derive(Clone, Copy, Debug, PartialEq, Eq, Structural)]
pub struct Particle {
    pub pos: Point,
    pub vel: Point,
    /// Age in microseconds.
    pub lifetime: u64,
}

/// One frame of motion: the position moves by the velocity, gravity pulls
/// the velocity one pixel down, and the particle ages by a frame.
pub open spec fn step(p: Particle) -> Particle {
    Particle {
        pos: Point { x: sat(p.pos.x + p.vel.x), y: sat(p.pos.y + p.vel.y) },
        vel: Point { x: p.vel.x, y: sat(p.vel.y + 1) },
        lifetime: if p.lifetime + FRAME_US > u64::MAX { u64::MAX } else { (p.lifetime + FRAME_US) as u64 },
    }
}

/// Whether a particle is still above the bottom edge.
pub open spec fn alive() -> spec_fn(Particle) -> bool {
    |p: Particle| p.pos.y < HEIGHT
}

/// A new particle at `pos` with velocity `vel`.
pub open spec fn spawned(pos: Point, vel: Point) -> Particle {
    Particle { pos, vel, lifetime: 0 }
}

/// Where a note at `pos` lands: straight down to the bottom edge, moved
/// right by one pixel for every `SLOPE_DIVISOR` pixels of fall.
pub open spec fn landing(pos: Point) -> Point {
    Point { x: (pos.x + (HEIGHT - pos.y) / SLOPE_DIVISOR as int) as i64, y: HEIGHT as i64 }
}

/// Coordinates small enough for a landing point and its trail to be drawn.
pub open spec fn note_pos_ok(p: Point) -> bool {
    -0x1000_0000 <= p.x <= 0x1000_0000 && -0x1000_0000 <= p.y <= 0x1000_0000
}

/// Coordinates small enough for a particle's path to be drawn.
pub open spec fn drawable(p: Point) -> bool {
    -0x2000_0000 <= p.x <= 0x2000_0000 && -0x2000_0000 <= p.y <= 0x2000_0000
}

fn is_drawable(p: Point) -> (r: bool)
    ensures
        r == drawable(p),
{
    -0x2000_0000 <= p.x && p.x <= 0x2000_0000 && -0x2000_0000 <= p.y && p.y <= 0x2000_0000
}

impl Particle {
    pub fn new(pos: Point, vel: Point) -> (r: Particle)
        ensures
            r == spawned(pos, vel),
    {
        Particle { pos, vel, lifetime: 0 }
    }

    pub fn update(&mut self)
        ensures
            *final(self) == step(*old(self)),
    {
        self.pos = Point::new(sat_add(self.pos.x, self.vel.x), sat_add(self.pos.y, self.vel.y));
        self.vel = Point::new(self.vel.x, sat_add(self.vel.y, 1));
        self.lifetime = self.lifetime.saturating_add(FRAME_US);
    }
}

/// The particles after a frame: each moved on, those that reached the
/// bottom edge dropped, the order kept.
pub open spec fn survivors(ps: Seq<Particle>) -> Seq<Particle> {
    ps.map_values(|q: Particle| step(q)).filter(alive())
}

/// After a frame, a particle survives if and only if its moved position is
/// above the bottom edge: every survivor is above it, and every particle
/// that moved to a row above it survives.
pub proof fn lemma_cull(ps: Seq<Particle>)
    ensures
        forall|p: Particle| #[trigger] survivors(ps).contains(p)
            ==> p.pos.y < HEIGHT,
        forall|i: int| 0 <= i < ps.len() && step(#[trigger] ps[i]).pos.y < HEIGHT
            ==> survivors(ps).contains(step(ps[i])),
        forall|i: int| 0 <= i < ps.len() && step(#[trigger] ps[i]).pos.y >= HEIGHT
            ==> !survivors(ps).contains(step(ps[i])),
{
    let moved = ps.map_values(|q: Particle| step(q));
    let kept = moved.filter(alive());
    assert forall|p: Particle| #[trigger] kept.contains(p) implies p.pos.y < HEIGHT by {
        let j = choose|j: int| 0 <= j < kept.len() && kept[j] == p;
        moved.lemma_filter_pred(alive(), j);
    }
    assert forall|i: int| 0 <= i < ps.len() && step(#[trigger] ps[i]).pos.y < HEIGHT
        implies kept.contains(step(ps[i])) by {
        assert(moved[i] == step(ps[i]));
        moved.lemma_filter_contains(alive(), i);
    }
}

/// Where a particle will be after a frame, before gravity acts.
pub open spec fn next_pos(p: Particle) -> Point {
    Point { x: (p.pos.x + p.vel.x) as i64, y: (p.pos.y + p.vel.y) as i64 }
}

/// The control point of a particle's path: the midpoint of its motion,
/// rounded down and lifted one pixel against gravity.
pub open spec fn mid_pos(p: Particle) -> Point {
    Point {
        x: ((p.pos.x + next_pos(p).x) / 2) as i64,
        y: ((p.pos.y + next_pos(p).y) / 2 - 1) as i64,
    }
}

/// The buffer after the paths of the first `k` particles have been drawn in
/// turn.
pub open spec fn particles_fold(buf: Seq<u8>, mode: BlendMode, pen: Seq<u8>, ps: Seq<Particle>, k: int) -> Seq<u8>
    decreases k,
{
    if k <= 0 {
        buf
    } else {
        let b = particles_fold(buf, mode, pen, ps, k - 1);
        let p = ps[k - 1];
        if drawable(p.pos) && drawable(p.vel) {
            curve_fold(b, mode, pen, p.pos, mid_pos(p), next_pos(p), curve_steps(p.pos, mid_pos(p), next_pos(p)))
        } else {
            b
        }
    }
}

/// The buffer after the first `k` trails have been drawn in turn.
pub open spec fn lines_fold(buf: Seq<u8>, mode: BlendMode, pen: Seq<u8>, lines: Seq<(Point, Point)>, k: int) -> Seq<u8>
    decreases k,
{
    if k <= 0 {
        buf
    } else {
        let (a, b) = lines[k - 1];
        line_fold(lines_fold(buf, mode, pen, lines, k - 1), mode, pen, a, b, line_steps(a, b))
    }
}

pub struct Particles {
    pub particles: Vec<Particle>,
    /// Trails to draw in the coming frame, from a note to where it lands.
    pub lines: Vec<(Point, Point)>,
}

impl Particles {
    pub open spec fn wf(&self) -> bool {
        forall|i: int| 0 <= i < self.lines@.len() ==>
            coord_ok(#[trigger] self.lines@[i].0) && coord_ok(self.lines@[i].1)
    }

    pub fn new() -> (r: Particles)
        ensures
            r.wf(),
            r.particles@.len() == 0,
            r.lines@.len() == 0,
    {
        Particles { particles: Vec::new(), lines: Vec::new() }
    }

    /// Moves every particle one frame on, then drops those that have reached
    /// the bottom edge; the others keep their order.
    pub fn update(&mut self)
        requires
            old(self).wf(),
        ensures
            final(self).wf(),
            final(self).particles@ == survivors(old(self).particles@),
            final(self).lines@ == old(self).lines@,
    {
        let ghost moved = self.particles@.map_values(|p: Particle| step(p));
        let mut kept: Vec<Particle> = Vec::new();
        let mut k: usize = 0;
        while k < self.particles.len()
            invariant
                k <= self.particles@.len(),
                self.particles@ == old(self).particles@,
                self.lines@ == old(self).lines@,
                moved == old(self).particles@.map_values(|p: Particle| step(p)),
                kept@ == moved.take(k as int).filter(alive()),
            decreases self.particles@.len() - k,
        {
            let mut p = self.particles[k];
            p.update();
            proof {
                reveal(Seq::filter);
                assert(moved.take(k + 1).drop_last() =~= moved.take(k as int));
                assert(moved.take(k + 1).last() == p);
            }
            if p.pos.y < HEIGHT as i64 {
                kept.push(p);
            }
            k = k + 1;
        }
        assert(moved.take(k as int) =~= moved);
        self.particles = kept;
    }

    /// Adds a particle at `pos` for each velocity, in order.
    pub fn push_burst(&mut self, pos: Point, vels: &Vec<Point>)
        ensures
            final(self).particles@ == old(self).particles@ + vels@.map_values(|v: Point| spawned(pos, v)),
            final(self).lines@ == old(self).lines@,
    {
        let mut k: usize = 0;
        while k < vels.len()
            invariant
                k <= vels@.len(),
                self.lines@ == old(self).lines@,
                self.particles@ == old(self).particles@ + vels@.take(k as int).map_values(|v: Point| spawned(pos, v)),
            decreases vels@.len() - k,
        {
            self.particles.push(Particle::new(pos, vels[k]));
            k = k + 1;
            assert(vels@.take(k as int).map_values(|v: Point| spawned(pos, v))
                =~= vels@.take(k - 1).map_values(|v: Point| spawned(pos, v)).push(spawned(pos, vels@[k - 1])));
        }
        assert(vels@.take(k as int) =~= vels@);
    }

    /// Adds two to four particles at `pos`, each moving up or sideways at
    /// less than `SPEED_LIMIT` pixels a frame.
    pub fn spawn_explosion(&mut self, pos: Point)
        ensures
            final(self).lines@ == old(self).lines@,
            old(self).particles@.len() + 2 <= final(self).particles@.len() < old(self).particles@.len() + 5,
            final(self).particles@.take(old(self).particles@.len() as int) == old(self).particles@,
            forall|i: int| old(self).particles@.len() <= i < final(self).particles@.len() ==> {
                let p = #[trigger] final(self).particles@[i];
                &&& p.pos == pos
                &&& p.lifetime == 0
                &&& p.vel.x * p.vel.x + p.vel.y * p.vel.y < SPEED_LIMIT * SPEED_LIMIT
                &&& p.vel.y <= 0
            },
    {
        let count = random_usize(2, 5);
        let mut vels: Vec<Point> = Vec::new();
        let mut k: usize = 0;
        while k < count
            invariant
                k <= count < 5,
                vels@.len() == k,
                forall|i: int| 0 <= i < k ==> (#[trigger] vels@[i]).x * vels@[i].x + vels@[i].y * vels@[i].y
                    < SPEED_LIMIT * SPEED_LIMIT && vels@[i].y <= 0,
            decreases count - k,
        {
            let vy = random_i64(-(SPEED_LIMIT - 1), 0);
            assert(0 <= vy * vy <= 196) by (nonlinear_arith)
                requires
                    -14 <= vy <= 0,
            ;
            // the widest sideways speed that keeps the speed below the limit
            let room: u64 = (SPEED_LIMIT * SPEED_LIMIT - 1 - vy * vy) as u64;
            let w = isqrt(room) as i64;
            let vx = random_i64(-w, w);
            proof {
                assert(w * w <= room);
                assert(vx * vx <= w * w) by (nonlinear_arith)
                    requires
                        -w <= vx <= w,
                ;
            }
            vels.push(Point::new(vx, vy));
            k = k + 1;
        }
        let ghost before = self.particles@;
        self.push_burst(pos, &vels);
        proof {
            assert(self.particles@.take(before.len() as int) =~= before);
            assert forall|i: int| before.len() <= i < self.particles@.len() implies
                (#[trigger] self.particles@[i]).pos == pos && self.particles@[i].lifetime == 0
                && self.particles@[i].vel.x * self.particles@[i].vel.x + self.particles@[i].vel.y * self.particles@[i].vel.y
                    < SPEED_LIMIT * SPEED_LIMIT
                && self.particles@[i].vel.y <= 0 by {
                assert(self.particles@[i] == spawned(pos, vels@[i - before.len()]));
            }
        }
    }

    /// Queues the trail from a note at `pos` to its landing point, and sets
    /// off an explosion there.
    pub fn particles_for_note(&mut self, pos: Point)
        requires
            old(self).wf(),
            note_pos_ok(pos),
        ensures
            final(self).wf(),
            final(self).lines@ == old(self).lines@.push((pos, landing(pos))),
            old(self).particles@.len() + 2 <= final(self).particles@.len() < old(self).particles@.len() + 5,
            final(self).particles@.take(old(self).particles@.len() as int) == old(self).particles@,
            forall|i: int| old(self).particles@.len() <= i < final(self).particles@.len()
                ==> (#[trigger] final(self).particles@[i]).pos == landing(pos)
                && final(self).particles@[i].lifetime == 0,
    {
        let rest_y: i64 = HEIGHT as i64 - pos.y;
        let drop: i128 = div_floor(rest_y as i128, SLOPE_DIVISOR as i128);
        proof {
            vstd::arithmetic::div_mod::lemma_div_is_ordered(-0x1000_0000 + 0, rest_y as int, 16);
            vstd::arithmetic::div_mod::lemma_div_is_ordered(rest_y as int, 0x1000_1000, 16);
        }
        let end = Point::new(pos.x + drop as i64, HEIGHT as i64);
        assert(end == landing(pos));
        self.lines.push((pos, end));
        assert forall|i: int| 0 <= i < self.lines@.len() implies
            coord_ok(#[trigger] self.lines@[i].0) && coord_ok(self.lines@[i].1) by {
            if i < old(self).lines@.len() {
                assert(self.lines@[i] == old(self).lines@[i]);
            }
        }
        self.spawn_explosion(end);
    }

    /// Draws each particle's path over the coming frame as a curve bent
    /// against gravity, then the queued trails, and empties the queue.
    /// A particle whose position or velocity exceeds `2^29` pixels along an
    /// axis is not drawn.
    pub fn draw(&mut self, canvas: &mut Canvas)
        requires
            old(self).wf(),
            old(canvas).wf(),
        ensures
            final(self).wf(),
            final(canvas).wf(),
            final(canvas).palette == old(canvas).palette,
            final(canvas).blend_mode == old(canvas).blend_mode,
            final(self).particles@ == old(self).particles@,
            final(self).lines@.len() == 0,
            final(canvas).pen_color == old(canvas).palette@[PARTICLE_COLOR as int % old(canvas).palette@.len() as int],
            final(canvas).buffer@ == lines_fold(
                particles_fold(
                    old(canvas).buffer@,
                    old(canvas).blend_mode,
                    final(canvas).pen_color@,
                    old(self).particles@,
                    old(self).particles@.len() as int,
                ),
                old(canvas).blend_mode,
                final(canvas).pen_color@,
                old(self).lines@,
                old(self).lines@.len() as int,
            ),
    {
        canvas.select_color(PARTICLE_COLOR);
        let ghost pen = canvas.pen_color;
        let mut k: usize = 0;
        while k < self.particles.len()
            invariant
                canvas.wf(),
                canvas.palette == old(canvas).palette,
                canvas.blend_mode == old(canvas).blend_mode,
                canvas.pen_color == pen,
                k <= self.particles@.len(),
                canvas.buffer@ == particles_fold(old(canvas).buffer@, canvas.blend_mode, pen@, self.particles@, k as int),
            decreases self.particles@.len() - k,
        {
            let p = self.particles[k];
            let pos = p.pos;
            if is_drawable(pos) && is_drawable(p.vel) {
                let next = Point::new(pos.x + p.vel.x, pos.y + p.vel.y);
                // the midpoint of the frame's motion, lifted against gravity
                let middle = Point::new(
                    div_floor(pos.x as i128 + next.x as i128, 2) as i64,
                    div_floor(pos.y as i128 + next.y as i128, 2) as i64 - 1,
                );
                assert(next == next_pos(p) && middle == mid_pos(p));
                canvas.draw_curve(pos, middle, next);
            }
            k = k + 1;
        }
        let ghost drawn = canvas.buffer@;
        let mut j: usize = 0;
        while j < self.lines.len()
            invariant
                self.wf(),
                canvas.wf(),
                canvas.palette == old(canvas).palette,
                canvas.blend_mode == old(canvas).blend_mode,
                canvas.pen_color == pen,
                j <= self.lines@.len(),
                self.particles@ == old(self).particles@,
                self.lines@ == old(self).lines@,
                canvas.buffer@ == lines_fold(drawn, canvas.blend_mode, pen@, self.lines@, j as int),
            decreases self.lines@.len() - j,
        {
            let line = self.lines[j];
            canvas.draw_line(line.0, line.1);
            j = j + 1;
        }
        self.lines.clear();
    }
}

} // verus!
