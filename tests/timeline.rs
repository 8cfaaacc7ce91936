use note_rain::notes::{note_find_lowest_highest, visible_window};
use note_rain::particles::{Particle, Particles, FRAME_US};
use note_rain::geometry::Point;
use note_rain::sketch::{default_palette, Sketch, VIEW_US};

#[test]
fn lowest_highest_of_three_notes() {
    let notes = vec![(0, 60), (500_000, 64), (1_000_000, 67)];
    assert_eq!(note_find_lowest_highest(&notes), (60, 67));
}

#[test]
fn lowest_highest_of_empty_timeline() {
    assert_eq!(note_find_lowest_highest(&vec![]), (255, 0));
}

#[test]
fn end_to_end_window() {
    let notes = vec![(0, 60), (500_000, 64), (1_000_000, 67)];
    assert_eq!(note_find_lowest_highest(&notes), (60, 67));
    assert_eq!(visible_window(&notes, 300_000, 400_000), vec![(500_000, 64)]);
}

#[test]
fn window_of_ten_notes_with_boundaries() {
    let notes: Vec<(u64, u8)> = vec![
        (0, 1),
        (100, 2),
        (199, 3),
        (200, 4),
        (200, 5),
        (350, 6),
        (599, 7),
        (600, 8),
        (600, 9),
        (900, 10),
    ];
    let w = visible_window(&notes, 200, 400);
    assert_eq!(w, vec![(200, 4), (200, 5), (350, 6), (599, 7)]);
    assert_eq!(visible_window(&notes, 1000, 400), vec![]);
    assert_eq!(visible_window(&notes, 0, 1), vec![(0, 1)]);
    assert_eq!(visible_window(&vec![], 0, 1), vec![]);
}

#[test]
fn particle_update_moves_and_falls() {
    let mut p = Particle::new(Point::new(10, 20), Point::new(3, -4));
    p.update();
    assert_eq!(p.pos, Point::new(13, 16));
    assert_eq!(p.vel, Point::new(3, -3));
    assert_eq!(p.lifetime, FRAME_US);
}

#[test]
fn particle_at_bottom_is_culled() {
    let mut ps = Particles::new();
    ps.particles.push(Particle::new(Point::new(5, 480), Point::new(0, 0)));
    ps.particles.push(Particle::new(Point::new(6, 478), Point::new(0, 0)));
    ps.particles.push(Particle::new(Point::new(7, 900), Point::new(0, -1)));
    ps.update();
    assert_eq!(ps.particles.len(), 1);
    assert_eq!(ps.particles[0].pos, Point::new(6, 478));
}

#[test]
fn particle_rising_from_bottom_is_kept() {
    let mut ps = Particles::new();
    ps.particles.push(Particle::new(Point::new(5, 480), Point::new(0, -1)));
    ps.update();
    assert_eq!(ps.particles.len(), 1);
}

#[test]
fn particle_above_bottom_is_kept() {
    let mut ps = Particles::new();
    ps.particles.push(Particle::new(Point::new(5, 479), Point::new(0, -1)));
    ps.update();
    assert_eq!(ps.particles.len(), 1);
    assert_eq!(ps.particles[0].pos, Point::new(5, 478));
}

#[test]
fn explosion_spawns_upward_particles() {
    for _ in 0..50 {
        let mut ps = Particles::new();
        let at = Point::new(100, 480);
        ps.spawn_explosion(at);
        assert!(ps.particles.len() >= 2 && ps.particles.len() < 5);
        for p in &ps.particles {
            assert_eq!(p.pos, at);
            assert_eq!(p.lifetime, 0);
            assert!(p.vel.x * p.vel.x + p.vel.y * p.vel.y < 225);
            assert!(p.vel.y <= 0);
        }
    }
}

#[test]
fn burst_places_given_velocities() {
    let mut ps = Particles::new();
    ps.push_burst(Point::new(1, 2), &vec![Point::new(3, -1), Point::new(-2, 0)]);
    assert_eq!(ps.particles, vec![
        Particle::new(Point::new(1, 2), Point::new(3, -1)),
        Particle::new(Point::new(1, 2), Point::new(-2, 0)),
    ]);
}

#[test]
fn note_lands_on_slope() {
    let mut ps = Particles::new();
    ps.particles_for_note(Point::new(100, 160));
    assert_eq!(ps.lines, vec![(Point::new(100, 160), Point::new(120, 480))]);
    assert!(ps.particles.len() >= 2);
    assert!(ps.particles.iter().all(|p| p.pos == Point::new(120, 480)));
    assert!(ps.particles.iter().all(|p| p.lifetime == 0));
}

#[test]
fn note_position_extrapolates_past_the_line() {
    let mut s = Sketch::new(vec![(0, 60), (500_000, 64), (1_000_000, 67)]);
    s.time = 100_000;
    // a note that has already passed sits below the bottom edge
    assert_eq!(s.pos_for((0, 60)), Point::new(67, 600));
}

#[test]
fn new_sketch_has_default_canvas_and_pitch_range() {
    let s = Sketch::new(vec![(0, 62), (10, 70), (20, 58)]);
    assert_eq!(s.note_lowest_highest, (58, 70));
    assert_eq!(s.canvas.palette, default_palette());
    assert!(s.canvas.buffer.iter().all(|b| *b == 255));
    let empty = Sketch::new(vec![]);
    assert_eq!(empty.note_lowest_highest, (255, 0));
}

#[test]
fn frame_is_drawn_the_same_over_any_old_buffer() {
    let notes = vec![(0, 60), (100_000, 64), (300_000, 67)];
    let mut a = Sketch::new(notes.clone());
    let mut b = Sketch::new(notes);
    a.update_visible_notes();
    b.update_visible_notes();
    b.canvas.dim(-100);
    a.draw();
    b.draw();
    assert!(a.canvas.buffer == b.canvas.buffer);
    assert!(a.canvas.buffer.iter().any(|v| *v != 0));
}

#[test]
fn palette_has_five_opaque_colours() {
    let p = default_palette();
    assert_eq!(p.len(), 5);
    assert_eq!(p[0], [0x16, 0x07, 0x29, 255]);
    assert_eq!(p[4], [0xdb, 0xf3, 0xf1, 255]);
}

#[test]
fn note_colour_spans_palette() {
    assert_eq!(Sketch::color_for(60, 67, 60), 0);
    assert_eq!(Sketch::color_for(60, 67, 67), 5);
    assert_eq!(Sketch::color_for(60, 67, 64), 3);
    assert_eq!(Sketch::color_for(60, 60, 60), 0);
}

#[test]
fn note_position_maps_time_and_pitch() {
    let s = Sketch::new(vec![(0, 60), (500_000, 64), (1_000_000, 67)]);
    assert_eq!(s.pos_for((0, 60)), Point::new(60, 480));
    assert_eq!(s.pos_for((VIEW_US, 67)), Point::new(610, 0));
    assert_eq!(s.pos_for((200_000, 60)), Point::new(45, 240));
}

#[test]
fn frame_triggers_arriving_notes() {
    let mut s = Sketch::new(vec![(0, 60), (20_000, 67), (500_000, 64)]);
    s.update();
    assert_eq!(s.time, 0);
    assert_eq!(s.visible_notes, vec![(0, 60), (20_000, 67)]);
    assert_eq!(s.droplets.lines.len(), 2);
    assert!(s.droplets.particles.len() >= 4);
    s.draw();
    assert!(s.droplets.lines.is_empty());
    assert!(s.canvas.buffer.iter().any(|b| *b != 0));
    s.next_frame();
    assert_eq!(s.frame, 1);
    s.update();
    assert_eq!(s.time, 33_333);
    assert_eq!(s.visible_notes, vec![]);
}

#[test]
fn window_reaching_past_the_largest_time() {
    let notes = vec![(u64::MAX - 5, 1), (u64::MAX, 2)];
    assert_eq!(visible_window(&notes, u64::MAX - 1, 10), vec![(u64::MAX, 2)]);
}
