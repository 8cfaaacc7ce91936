use vstd::prelude::*;
use crate::geometry::{Point, map_spec, abs, lemma_map_bound};
use crate::canvas::{Canvas, BlendMode, WIDTH, HEIGHT, BUFFER_LEN, coord_ok, line_fold, line_steps};
use crate::notes::{Note, in_window, sorted_by_time, note_find_lowest_highest, visible_window};
use crate::palette::{hex_to_rgb, digits_at};
use crate::particles::{Particle, Particles, FRAME_US, PARTICLE_COLOR, landing, note_pos_ok, particles_fold, lines_fold, survivors};
use crate::palette::hex_byte;

verus! {

/// Microseconds of future notes shown on screen.
pub const VIEW_US: u64 = 400000;
/// Horizontal margin, and the sideways drift of a note over the screen height.
pub const SLOPE: i32 = 30;
/// Number of palette entries that notes are coloured with.
pub const PALETTE_LEN: i32 = 5;
/// Largest frame number that the clock arithmetic is proved for.
pub const MAX_FRAME: u64 = 0x100_0000_0000;

/// Start of frame `frame`, in microseconds, at thirty frames a second.
pub open spec fn frame_time(frame: u64) -> int {
    frame * 1000000 / 30
}

/// Screen position of a note at time `now`: the time left maps from
/// `[0, VIEW_US]` to `[HEIGHT, 0]`, the pitch from `[low, high]` to
/// `[SLOPE, WIDTH - SLOPE]`, and notes drift right by up to `SLOPE` as they
/// fall. With a single pitch every note sits at the left margin.
pub open spec fn pos_spec(now: u64, lh: (u8, u8), note: Note) -> Point {
    let y = map_spec(note.0 - now, 0, VIEW_US as int, HEIGHT as int, 0);
    let offset = map_spec(y, 0, HEIGHT as int, 0, SLOPE as int);
    let x = if lh.0 == lh.1 {
        SLOPE as int
    } else {
        map_spec(note.1 as int, lh.0 as int, lh.1 as int, SLOPE as int, WIDTH - SLOPE)
    };
    Point { x: (x + offset) as i64, y: y as i64 }
}

/// Whether a note arrives within one frame of `now`.
pub open spec fn arriving(now: u64) -> spec_fn(Note) -> bool {
    |n: Note| n.0 - now < FRAME_US
}

/// The trail queued for a note that arrives.
pub open spec fn note_trail(now: u64, lh: (u8, u8)) -> spec_fn(Note) -> (Point, Point) {
    |n: Note| (pos_spec(now, lh, n), landing(pos_spec(now, lh, n)))
}

/// Palette entry of a pitch: its place in `[low, high]` scaled to
/// `[0, PALETTE_LEN]`, rounded to the nearest integer and held to `0..=255`.
pub open spec fn color_spec(lh: (u8, u8), pitch: u8) -> int {
    if lh.0 == lh.1 {
        0
    } else {
        let h = map_spec(pitch as int, lh.0 as int, lh.1 as int, 1, 2 * PALETTE_LEN + 1) / 2;
        if h < 0 { 0 } else if h > 255 { 255 } else { h }
    }
}

/// The buffer after the first `k` notes have been drawn in turn, each as a
/// line from where it will be a frame later to where it is now, in its
/// pitch's palette colour.
pub open spec fn notes_fold(
    buf: Seq<u8>,
    mode: BlendMode,
    palette: Seq<[u8; 4]>,
    now: u64,
    lh: (u8, u8),
    notes: Seq<Note>,
    k: int,
) -> Seq<u8>
    decreases k,
{
    if k <= 0 {
        buf
    } else {
        let n = notes[k - 1];
        let pen = palette[color_spec(lh, n.1) % palette.len() as int]@;
        let from = pos_spec(now, lh, ((n.0 + FRAME_US) as u64, n.1));
        let to = pos_spec(now, lh, n);
        line_fold(notes_fold(buf, mode, palette, now, lh, notes, k - 1), mode, pen, from, to, line_steps(from, to))
    }
}

/// The colours named by the default palette, dark to light.
pub open spec fn default_colors() -> Seq<Seq<u8>> {
    seq![
        seq![0x16u8, 0x07u8, 0x29u8, 255u8],
        seq![0x17u8, 0x18u8, 0x56u8, 255u8],
        seq![0x24u8, 0x37u8, 0x71u8, 255u8],
        seq![0x41u8, 0x6eu8, 0x8fu8, 255u8],
        seq![0xdbu8, 0xf3u8, 0xf1u8, 255u8],
    ]
}

/// Whether a particle sits at the landing point of one of the trails from
/// index `from` on.
pub open spec fn on_new_trail(lines: Seq<(Point, Point)>, from: int, p: Particle) -> bool {
    exists|j: int| from <= j < lines.len() && #[trigger] lines[j].1 == p.pos
}

pub struct Sketch {
    pub canvas: Canvas,
    pub frame: u64,
    /// Time of the current frame, in microseconds.
    pub time: u64,
    pub visible_notes: Vec<Note>,
    pub note_lowest_highest: (u8, u8),
    pub droplets: Particles,
    pub notes: Vec<Note>,
}

/// The palette's colours, dark to light.
pub fn default_palette() -> (r: Vec<[u8; 4]>)
    ensures
        r@.len() == 5,
        forall|i: int| 0 <= i < 5 ==> (#[trigger] r@[i])@ == default_colors()[i],
{
    let names: [&str; 5] = ["#160729", "#171856", "#243771", "#416e8f", "#dbf3f1"];
    proof {
        reveal_strlit("#160729");
        reveal_strlit("#171856");
        reveal_strlit("#243771");
        reveal_strlit("#416e8f");
        reveal_strlit("#dbf3f1");
        assert(digits_at("#160729"@, 1));
        assert(digits_at("#171856"@, 1));
        assert(digits_at("#243771"@, 1));
        assert(digits_at("#416e8f"@, 1));
        assert(digits_at("#dbf3f1"@, 1));
    }
    let mut r: Vec<[u8; 4]> = Vec::new();
    r.push(hex_to_rgb("#160729"));
    r.push(hex_to_rgb("#171856"));
    r.push(hex_to_rgb("#243771"));
    r.push(hex_to_rgb("#416e8f"));
    r.push(hex_to_rgb("#dbf3f1"));
    proof {
        assert(hex_byte("#160729"@, 1) == 0x16u8 && hex_byte("#160729"@, 3) == 0x07u8 && hex_byte("#160729"@, 5) == 0x29u8);
        assert(hex_byte("#171856"@, 1) == 0x17u8 && hex_byte("#171856"@, 3) == 0x18u8 && hex_byte("#171856"@, 5) == 0x56u8);
        assert(hex_byte("#243771"@, 1) == 0x24u8 && hex_byte("#243771"@, 3) == 0x37u8 && hex_byte("#243771"@, 5) == 0x71u8);
        assert(hex_byte("#416e8f"@, 1) == 0x41u8 && hex_byte("#416e8f"@, 3) == 0x6eu8 && hex_byte("#416e8f"@, 5) == 0x8fu8);
        assert(hex_byte("#dbf3f1"@, 1) == 0xdbu8 && hex_byte("#dbf3f1"@, 3) == 0xf3u8 && hex_byte("#dbf3f1"@, 5) == 0xf1u8);
        assert forall|i: int| 0 <= i < 5 implies (#[trigger] r@[i])@ == default_colors()[i] by {
            assert(r@[i]@ =~= default_colors()[i]);
        }
    }
    r
}

impl Sketch {
    pub open spec fn wf(&self) -> bool {
        &&& self.canvas.wf()
        &&& self.droplets.wf()
        &&& sorted_by_time(self.notes@)
        &&& self.time + VIEW_US + FRAME_US <= u64::MAX
        &&& forall|i: int| 0 <= i < self.visible_notes@.len() ==>
                self.time <= (#[trigger] self.visible_notes@[i]).0 < self.time + VIEW_US
    }

    pub fn new(notes: Vec<Note>) -> (r: Sketch)
        requires
            sorted_by_time(notes@),
        ensures
            r.wf(),
            r.notes@ == notes@,
            r.frame == 0,
            r.time == 0,
            r.visible_notes@.len() == 0,
            r.droplets.particles@.len() == 0,
            r.droplets.lines@.len() == 0,
            forall|i: int| 0 <= i < notes@.len() ==> r.note_lowest_highest.0 <= #[trigger] notes@[i].1
                && notes@[i].1 <= r.note_lowest_highest.1,
            notes@.len() == 0 ==> r.note_lowest_highest == (255u8, 0u8),
            notes@.len() > 0 ==> exists|i: int| 0 <= i < notes@.len() && #[trigger] notes@[i].1 == r.note_lowest_highest.0,
            notes@.len() > 0 ==> exists|i: int| 0 <= i < notes@.len() && #[trigger] notes@[i].1 == r.note_lowest_highest.1,
            r.canvas.palette@.len() == 5,
            forall|i: int| 0 <= i < 5 ==> (#[trigger] r.canvas.palette@[i])@ == default_colors()[i],
            forall|i: int| 0 <= i < BUFFER_LEN ==> r.canvas.buffer@[i] == 255,
            r.canvas.pen_color@ == seq![255u8, 255u8, 255u8, 255u8],
            r.canvas.blend_mode == BlendMode::Replace,
    {
        let canvas = Self::canvas();
        let note_lowest_highest = note_find_lowest_highest(&notes);
        Sketch {
            canvas,
            frame: 0,
            time: 0,
            visible_notes: Vec::new(),
            note_lowest_highest,
            droplets: Particles::new(),
            notes,
        }
    }

    /// A canvas with the default palette.
    pub fn canvas() -> (r: Canvas)
        ensures
            r.wf(),
            r.palette@.len() == 5,
            forall|i: int| 0 <= i < 5 ==> (#[trigger] r.palette@[i])@ == default_colors()[i],
            forall|i: int| 0 <= i < BUFFER_LEN ==> r.buffer@[i] == 255,
            r.pen_color@ == seq![255u8, 255u8, 255u8, 255u8],
            r.blend_mode == BlendMode::Replace,
    {
        Canvas::new(default_palette())
    }

    /// Screen position of `note` at the current time.
    pub fn pos_for(&self, note: Note) -> (r: Point)
        requires
            -0x7fff_ffff <= note.0 - self.time <= 0x7fff_ffff,
        ensures
            r == pos_spec(self.time, self.note_lowest_highest, note),
            note_pos_ok(r),
            coord_ok(r),
    {
        let time_left: i32 = (note.0 as i128 - self.time as i128) as i32;
        proof {
            lemma_map_bound(time_left as int, 0, VIEW_US as int, HEIGHT as int, 0);
            let yy = map_spec(time_left as int, 0, VIEW_US as int, HEIGHT as int, 0);
            assert(abs(0 - HEIGHT as int) == 480);
            assert(abs(VIEW_US as int - 0) == 400000);
            let t = abs(time_left - 0);
            assert(0 <= t <= 0x7fff_ffff);
            assert(400000 * abs(yy - 480) <= t * 480 + 400000);
            assert(t * 480 <= 0x7fff_ffff * 480) by (nonlinear_arith)
                requires
                    0 <= t <= 0x7fff_ffff,
            ;
            let e = abs(yy - 480);
            assert(e <= 2_600_000) by (nonlinear_arith)
                requires
                    400000 * e <= 0x7fff_ffff * 480 + 400000,
            ;
            assert(-3_000_000 <= yy <= 3_000_000);
        }
        let y: i64 = crate::geometry::map(time_left, 0, VIEW_US as i32, HEIGHT as i32, 0);
        proof {
            lemma_map_bound(y as int, 0, HEIGHT as int, 0, SLOPE as int);
        }
        proof {
            let so = map_spec(y as int, 0, HEIGHT as int, 0, SLOPE as int);
            assert(abs(HEIGHT as int - 0) == 480);
            assert(abs(SLOPE as int - 0) == 30);
            assert(480 * abs(so - 0) <= abs(y - 0) * 30 + 480);
            assert(-200_000 <= so <= 200_000);
        }
        let slope_offset: i64 = crate::geometry::map(y as i32, 0, HEIGHT as i32, 0, SLOPE);

        let (low, high) = self.note_lowest_highest;
        let x: i64 = if low == high {
            SLOPE as i64
        } else {
            proof {
                lemma_map_bound(note.1 as int, low as int, high as int, SLOPE as int, WIDTH - SLOPE);
                let d = abs(high - low);
                let xd = abs(map_spec(note.1 as int, low as int, high as int, SLOPE as int, WIDTH - SLOPE) - SLOPE);
                let pd = abs(note.1 - low);
                assert(xd <= 255 * 580 + 255) by (nonlinear_arith)
                    requires
                        d * xd <= pd * 580 + d,
                        1 <= d <= 255,
                        0 <= pd <= 255,
                        xd >= 0,
                ;
            }
            crate::geometry::map(note.1 as i32, low as i32, high as i32, SLOPE, WIDTH as i32 - SLOPE)
        };
        Point::new(x + slope_offset, y)
    }

    /// Sets the clock to the current frame and selects the notes it shows.
    pub fn update_visible_notes(&mut self)
        requires
            old(self).wf(),
            old(self).frame <= MAX_FRAME,
        ensures
            final(self).wf(),
            final(self).time == frame_time(old(self).frame),
            final(self).visible_notes@ == old(self).notes@.filter(in_window(final(self).time, VIEW_US)),
            final(self).frame == old(self).frame,
            final(self).notes == old(self).notes,
            final(self).note_lowest_highest == old(self).note_lowest_highest,
            final(self).droplets == old(self).droplets,
            final(self).canvas == old(self).canvas,
    {
        assert(self.frame * 1000000 <= MAX_FRAME * 1000000) by (nonlinear_arith)
            requires
                self.frame <= MAX_FRAME,
        ;
        self.time = self.frame * 1000000 / 30;
        assert(self.time <= MAX_FRAME * 1000000);
        self.visible_notes = visible_window(&self.notes, self.time, VIEW_US);
        proof {
            let p = in_window(self.time, VIEW_US);
            assert forall|i: int| 0 <= i < self.visible_notes@.len() implies
                self.time <= (#[trigger] self.visible_notes@[i]).0 < self.time + VIEW_US by {
                self.notes@.lemma_filter_pred(p, i);
            }
        }
    }

    /// One step of the simulation: particles move, the clock and the visible
    /// notes follow the frame number, and each note arriving within a frame
    /// queues its trail and sets off an explosion where it lands.
    pub fn update(&mut self)
        requires
            old(self).wf(),
            old(self).frame <= MAX_FRAME,
        ensures
            final(self).wf(),
            final(self).time == frame_time(old(self).frame),
            final(self).visible_notes@ == old(self).notes@.filter(in_window(final(self).time, VIEW_US)),
            final(self).droplets.lines@ == old(self).droplets.lines@ + final(self).visible_notes@.filter(
                arriving(final(self).time),
            ).map_values(note_trail(final(self).time, old(self).note_lowest_highest)),
            final(self).droplets.particles@.take(survivors(old(self).droplets.particles@).len() as int)
                == survivors(old(self).droplets.particles@),
            survivors(old(self).droplets.particles@).len() + 2 * (final(self).droplets.lines@.len() - old(self).droplets.lines@.len())
                <= final(self).droplets.particles@.len(),
            final(self).droplets.particles@.len()
                <= survivors(old(self).droplets.particles@).len() + 4 * (final(self).droplets.lines@.len() - old(self).droplets.lines@.len()),
            forall|i: int| survivors(old(self).droplets.particles@).len() <= i < final(self).droplets.particles@.len()
                ==> (#[trigger] final(self).droplets.particles@[i]).lifetime == 0
                && on_new_trail(final(self).droplets.lines@, old(self).droplets.lines@.len() as int, final(self).droplets.particles@[i]),
            final(self).frame == old(self).frame,
            final(self).canvas == old(self).canvas,
            final(self).notes == old(self).notes,
            final(self).note_lowest_highest == old(self).note_lowest_highest,
    {
        self.droplets.update();
        self.update_visible_notes();
        let ghost vis = self.visible_notes@;
        let ghost trail = note_trail(self.time, self.note_lowest_highest);
        let ghost start = self.droplets.lines@;
        let ghost surv = self.droplets.particles@;
        let mut k: usize = 0;
        while k < self.visible_notes.len()
            invariant
                self.wf(),
                k <= vis.len(),
                self.visible_notes@ == vis,
                self.time == frame_time(old(self).frame),
                self.frame == old(self).frame,
                self.canvas == old(self).canvas,
                self.notes == old(self).notes,
                self.note_lowest_highest == old(self).note_lowest_highest,
                trail == note_trail(self.time, self.note_lowest_highest),
                self.droplets.lines@ == start + vis.take(k as int).filter(arriving(self.time)).map_values(trail),
                surv == survivors(old(self).droplets.particles@),
                start == old(self).droplets.lines@,
                self.droplets.particles@.take(surv.len() as int) == surv,
                surv.len() + 2 * (self.droplets.lines@.len() - start.len()) <= self.droplets.particles@.len(),
                self.droplets.particles@.len() <= surv.len() + 4 * (self.droplets.lines@.len() - start.len()),
                forall|i: int| surv.len() <= i < self.droplets.particles@.len()
                    ==> (#[trigger] self.droplets.particles@[i]).lifetime == 0
                    && on_new_trail(self.droplets.lines@, start.len() as int, self.droplets.particles@[i]),
            decreases vis.len() - k,
        {
            let note = self.visible_notes[k];
            proof {
                reveal(Seq::filter);
                assert(vis.take(k + 1).drop_last() =~= vis.take(k as int));
                assert(vis.take(k + 1).last() == note);
            }
            if note.0 - self.time < FRAME_US {
                let pos = self.pos_for(note);
                let ghost ps0 = self.droplets.particles@;
                let ghost ls0 = self.droplets.lines@;
                self.droplets.particles_for_note(pos);
                proof {
                    let ps1 = self.droplets.particles@;
                    let ls1 = self.droplets.lines@;
                    assert(ps1.take(surv.len() as int) =~= ps0.take(surv.len() as int)) by {
                        assert(ps1.take(ps0.len() as int) == ps0);
                        assert forall|i: int| 0 <= i < surv.len() implies ps1[i] == ps0[i] by {
                            assert(ps1.take(ps0.len() as int)[i] == ps1[i]);
                        }
                    }
                    assert forall|i: int| surv.len() <= i < ps1.len() implies
                        (#[trigger] ps1[i]).lifetime == 0 && on_new_trail(ls1, start.len() as int, ps1[i]) by {
                        if i < ps0.len() {
                            assert(ps1.take(ps0.len() as int)[i] == ps1[i]);
                            assert(ps0[i] == ps1[i]);
                            assert(on_new_trail(ls0, start.len() as int, ps0[i]));
                            let j = choose|j: int| start.len() <= j < ls0.len() && #[trigger] ls0[j].1 == ps0[i].pos;
                            assert(ls1[j] == ls0[j]);
                        } else {
                            assert(ls1[ls0.len() as int].1 == ps1[i].pos);
                        }
                    }
                    let f = vis.take(k as int).filter(arriving(self.time));
                    assert(f.push(note).map_values(trail) =~= f.map_values(trail).push(trail(note)));
                    assert(start + f.map_values(trail).push(trail(note)) =~= (start + f.map_values(trail)).push(trail(note)));
                }
            }
            k = k + 1;
        }
        assert(vis.take(k as int) =~= vis);
    }

    /// Renders the frame: clears the canvas, draws each visible note as a
    /// line over its last frame of fall in its pitch's colour, then the
    /// particles and queued trails.
    pub fn draw(&mut self)
        requires
            old(self).wf(),
        ensures
            final(self).wf(),
            final(self).canvas.palette == old(self).canvas.palette,
            final(self).droplets.particles@ == old(self).droplets.particles@,
            final(self).droplets.lines@.len() == 0,
            final(self).canvas.pen_color
                == old(self).canvas.palette@[PARTICLE_COLOR as int % old(self).canvas.palette@.len() as int],
            final(self).canvas.buffer@ == lines_fold(
                particles_fold(
                    notes_fold(
                        Seq::new(BUFFER_LEN as nat, |i: int| 0u8),
                        old(self).canvas.blend_mode,
                        old(self).canvas.palette@,
                        old(self).time,
                        old(self).note_lowest_highest,
                        old(self).visible_notes@,
                        old(self).visible_notes@.len() as int,
                    ),
                    old(self).canvas.blend_mode,
                    final(self).canvas.pen_color@,
                    old(self).droplets.particles@,
                    old(self).droplets.particles@.len() as int,
                ),
                old(self).canvas.blend_mode,
                final(self).canvas.pen_color@,
                old(self).droplets.lines@,
                old(self).droplets.lines@.len() as int,
            ),
            final(self).visible_notes == old(self).visible_notes,
            final(self).time == old(self).time,
            final(self).frame == old(self).frame,
            final(self).notes == old(self).notes,
            final(self).note_lowest_highest == old(self).note_lowest_highest,
    {
        self.canvas.clear();
        assert(self.canvas.buffer@ =~= Seq::new(BUFFER_LEN as nat, |i: int| 0u8));
        let (low, high) = self.note_lowest_highest;
        let mut k: usize = 0;
        while k < self.visible_notes.len()
            invariant
                self.wf(),
                k <= self.visible_notes@.len(),
                self.canvas.palette == old(self).canvas.palette,
                self.droplets == old(self).droplets,
                self.visible_notes == old(self).visible_notes,
                self.time == old(self).time,
                self.frame == old(self).frame,
                self.notes == old(self).notes,
                self.note_lowest_highest == old(self).note_lowest_highest,
                (low, high) == self.note_lowest_highest,
                self.canvas.blend_mode == old(self).canvas.blend_mode,
                self.canvas.buffer@ == notes_fold(
                    Seq::new(BUFFER_LEN as nat, |i: int| 0u8),
                    self.canvas.blend_mode,
                    self.canvas.palette@,
                    self.time,
                    self.note_lowest_highest,
                    self.visible_notes@,
                    k as int,
                ),
            decreases self.visible_notes@.len() - k,
        {
            let note = self.visible_notes[k];
            let color = Self::color_for(low, high, note.1);
            self.canvas.select_color(color);
            let prev_pos = self.pos_for((note.0 + FRAME_US, note.1));
            let pos = self.pos_for(note);
            self.canvas.draw_line(prev_pos, pos);
            k = k + 1;
        }
        self.droplets.draw(&mut self.canvas);
    }

    /// Palette entry for a pitch between `low` and `high`.
    pub fn color_for(low: u8, high: u8, pitch: u8) -> (r: u8)
        ensures
            r == color_spec((low, high), pitch),
    {
        if low == high {
            return 0;
        }
        proof {
            lemma_map_bound(pitch as int, low as int, high as int, 1, 2 * PALETTE_LEN + 1);
            let d = abs(high - low);
            let xd = abs(map_spec(pitch as int, low as int, high as int, 1, 2 * PALETTE_LEN + 1) - 1);
            let pd = abs(pitch - low);
            assert(xd <= 255 * 10 + 255) by (nonlinear_arith)
                requires
                    d * xd <= pd * 10 + d,
                    1 <= d <= 255,
                    0 <= pd <= 255,
                    xd >= 0,
            ;
        }
        let m: i64 = crate::geometry::map(pitch as i32, low as i32, high as i32, 1, 2 * PALETTE_LEN + 1);
        if m < 0 {
            0
        } else if m / 2 > 255 {
            255
        } else {
            (m / 2) as u8
        }
    }

    /// Moves to the next frame.
    pub fn next_frame(&mut self)
        requires
            old(self).frame < u64::MAX,
        ensures
            final(self).frame == old(self).frame + 1,
            final(self).time == old(self).time,
            final(self).notes == old(self).notes,
            final(self).canvas == old(self).canvas,
            final(self).visible_notes == old(self).visible_notes,
            final(self).note_lowest_highest == old(self).note_lowest_highest,
            final(self).droplets == old(self).droplets,
            old(self).wf() ==> final(self).wf(),
    {
        self.frame = self.frame + 1;
    }
}

} // verus!
