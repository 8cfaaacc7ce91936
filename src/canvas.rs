use vstd::prelude::*;
use crate::geometry::{Point, div_floor};
use crate::random::random_usize;

verus! {

pub const WIDTH: usize = 640;
pub const HEIGHT: usize = 480;
/// Bytes in a frame: four (red, green, blue, alpha) per pixel, row by row.
pub const BUFFER_LEN: usize = 1228800;
/// Pixels in a frame.
pub const PIXELS: usize = 307200;

/// How the pen colour is put onto a pixel.
#[derive(Clone, Copy, Debug, PartialEq, Eq, Structural)]
pub enum BlendMode {
    Replace,
    Blend,
}

pub struct Canvas {
    pub buffer: Vec<u8>,
    pub palette: Vec<[u8; 4]>,
    pub pen_color: [u8; 4],
    pub blend_mode: BlendMode,
}

/// One channel of alpha compositing: `pen * a/255 + dst * (1 - a/255)`,
/// rounded down.
pub open spec fn blend_channel(pen: int, alpha: int, dst: int) -> int {
    (pen * alpha + dst * (255 - alpha)) / 255
}

/// The four bytes of a pixel after the pen has been put on `dst`.
pub open spec fn composite(mode: BlendMode, pen: Seq<u8>, dst: Seq<u8>) -> Seq<u8> {
    match mode {
        BlendMode::Replace => pen,
        BlendMode::Blend => Seq::new(4, |c: int| blend_channel(pen[c] as int, pen[3] as int, dst[c] as int) as u8),
    }
}

/// The buffer with the four bytes at `i` replaced by `px`.
pub open spec fn put_pixel(buf: Seq<u8>, i: int, px: Seq<u8>) -> Seq<u8> {
    buf.update(i, px[0]).update(i + 1, px[1]).update(i + 2, px[2]).update(i + 3, px[3])
}

pub open spec fn pixel_at(buf: Seq<u8>, i: int) -> Seq<u8> {
    buf.subrange(i, i + 4)
}

pub open spec fn in_bounds(p: Point) -> bool {
    0 <= p.x < WIDTH && 0 <= p.y < HEIGHT
}

pub open spec fn index_of(x: int, y: int) -> int {
    (x + y * WIDTH) * 4
}

/// Whether drawing at `p` may write byte `i` of the buffer.
pub open spec fn touches(p: Point, i: int) -> bool {
    in_bounds(p) && index_of(p.x as int, p.y as int) <= i < index_of(p.x as int, p.y as int) + 4
}

/// The buffer after the pen has been put on the pixel at `p`; a point off
/// the canvas leaves it as it was.
pub open spec fn point_spec(buf: Seq<u8>, mode: BlendMode, pen: Seq<u8>, p: Point) -> Seq<u8> {
    if in_bounds(p) {
        let i = index_of(p.x as int, p.y as int);
        put_pixel(buf, i, composite(mode, pen, pixel_at(buf, i)))
    } else {
        buf
    }
}

pub open spec fn clamp_byte(v: int) -> u8 {
    if v < 0 { 0 } else if v > 255 { 255 } else { v as u8 }
}

/// Coordinates small enough that the drawing arithmetic cannot overflow.
pub open spec fn coord_ok(p: Point) -> bool {
    -0x4000_0000 <= p.x <= 0x4000_0000 && -0x4000_0000 <= p.y <= 0x4000_0000
}

pub open spec fn abs_int(v: int) -> int {
    if v < 0 { -v } else { v }
}

pub open spec fn max_int(a: int, b: int) -> int {
    if a < b { b } else { a }
}

/// The point `s/n` of the way from `a` to `b`, rounded down.
pub open spec fn lerp(a: int, b: int, s: int, n: int) -> int {
    a + ((b - a) * s) / n
}

/// Number of samples on a line: the larger of its horizontal and vertical
/// extents.
pub open spec fn line_steps(from: Point, to: Point) -> int {
    max_int(abs_int(to.x - from.x), abs_int(to.y - from.y))
}

/// The integer square root: the largest `r` with `r * r <= n`.
pub open spec fn floor_sqrt(n: int) -> int {
    choose|r: int| is_root(r, n)
}

pub open spec fn is_root(r: int, n: int) -> bool {
    0 <= r && r * r <= n < (r + 1) * (r + 1)
}

/// Euclidean distance, rounded down.
pub open spec fn dist(a: Point, b: Point) -> int {
    floor_sqrt((a.x - b.x) * (a.x - b.x) + (a.y - b.y) * (a.y - b.y))
}

/// Sample `s` of a line: `s` unit steps from `from` along the direction of
/// `to` (the length being the rounded-down Euclidean distance), each
/// coordinate rounded down.
pub open spec fn line_sample(from: Point, to: Point, s: int) -> Point {
    let len = dist(to, from);
    Point { x: lerp(from.x as int, to.x as int, s, len) as i64, y: lerp(from.y as int, to.y as int, s, len) as i64 }
}

/// The buffer after the first `k` samples of the line have been drawn in
/// turn.
pub open spec fn line_fold(buf: Seq<u8>, mode: BlendMode, pen: Seq<u8>, from: Point, to: Point, k: int) -> Seq<u8>
    decreases k,
{
    if k <= 0 {
        buf
    } else {
        point_spec(line_fold(buf, mode, pen, from, to, k - 1), mode, pen, line_sample(from, to, k - 1))
    }
}

/// Whether byte `i` lies under none of the first `n` samples of the line.
pub open spec fn line_misses(from: Point, to: Point, n: int, i: int) -> bool {
    forall|s: int| 0 <= s < n ==> !#[trigger] touches(line_sample(from, to, s), i)
}

/// Chebyshev distance: the larger of the two coordinate differences.
pub open spec fn cheb(a: Point, b: Point) -> int {
    max_int(abs_int(a.x - b.x), abs_int(a.y - b.y))
}

/// Number of steps of a curve: the sum of the (rounded-down) Euclidean
/// distances between its three points.
pub open spec fn curve_steps(start: Point, control: Point, end: Point) -> int {
    dist(start, control) + dist(control, end) + dist(end, start)
}

pub open spec fn lerp_point(a: Point, b: Point, s: int, n: int) -> Point {
    Point { x: lerp(a.x as int, b.x as int, s, n) as i64, y: lerp(a.y as int, b.y as int, s, n) as i64 }
}

/// Sample `s` of the quadratic Bezier curve, by De Casteljau's construction
/// at `s / curve_steps`.
pub open spec fn curve_sample(start: Point, control: Point, end: Point, s: int) -> Point {
    let n = curve_steps(start, control, end);
    let p1 = lerp_point(start, control, s, n);
    let p2 = lerp_point(control, end, s, n);
    lerp_point(p1, p2, s, n)
}

/// The buffer after samples `1..k` of the curve have been drawn in turn.
pub open spec fn curve_fold(
    buf: Seq<u8>,
    mode: BlendMode,
    pen: Seq<u8>,
    start: Point,
    control: Point,
    end: Point,
    k: int,
) -> Seq<u8>
    decreases k,
{
    if k <= 1 {
        buf
    } else {
        point_spec(curve_fold(buf, mode, pen, start, control, end, k - 1), mode, pen, curve_sample(start, control, end, k - 1))
    }
}

/// Whether byte `i` lies under none of samples `1..n` of the curve.
pub open spec fn curve_misses(start: Point, control: Point, end: Point, n: int, i: int) -> bool {
    forall|s: int| 1 <= s < n ==> !#[trigger] touches(curve_sample(start, control, end, s), i)
}

/// Drawing a point off the canvas leaves the buffer as it was.
pub proof fn lemma_point_outside_unchanged(buf: Seq<u8>, mode: BlendMode, pen: Seq<u8>, p: Point)
    requires
        !in_bounds(p),
    ensures
        point_spec(buf, mode, pen, p) == buf,
{
}

/// Blending with a transparent pen keeps the destination pixel; blending
/// with an opaque pen gives exactly the pen colour.
pub proof fn lemma_blend_alpha_extremes(pen: Seq<u8>, dst: Seq<u8>)
    requires
        pen.len() == 4,
        dst.len() == 4,
    ensures
        pen[3] == 0 ==> composite(BlendMode::Blend, pen, dst) == dst,
        pen[3] == 255 ==> composite(BlendMode::Blend, pen, dst) == pen,
{
    let px = composite(BlendMode::Blend, pen, dst);
    if pen[3] == 0 {
        assert forall|c: int| 0 <= c < 4 implies px[c] == dst[c] by {
            assert(blend_channel(pen[c] as int, 0, dst[c] as int) == dst[c] as int);
        }
        assert(px =~= dst);
    }
    if pen[3] == 255 {
        assert forall|c: int| 0 <= c < 4 implies px[c] == pen[c] by {
            let pc = pen[c] as int;
            assert(pc * 255 + (dst[c] as int) * (255 - 255) == 255 * pc) by (nonlinear_arith);
            vstd::arithmetic::div_mod::lemma_div_multiples_vanish(pc, 255);
            assert(blend_channel(pc, 255, dst[c] as int) == pc);
        }
        assert(px =~= pen);
    }
}

/// A palette colour at a twentieth of its opacity.
pub open spec fn faint(c: Seq<u8>) -> Seq<u8> {
    seq![c[0], c[1], c[2], (c[3] / 20) as u8]
}

/// Pixel `k` of `buf` after a faint palette colour has been blended onto
/// pixel `k` of `old`.
pub open spec fn noised(buf: Seq<u8>, old: Seq<u8>, palette: Seq<[u8; 4]>, pick: int, k: int) -> bool {
    pixel_at(buf, 4 * k) == composite(BlendMode::Blend, faint(palette[pick]@), pixel_at(old, 4 * k))
}

/// Pixel `k` of `buf` is `old`'s with some faint palette colour blended on.
pub open spec fn noised_by_some(buf: Seq<u8>, old: Seq<u8>, palette: Seq<[u8; 4]>, k: int) -> bool {
    exists|j: int| 0 <= j < palette.len() && #[trigger] noised(buf, old, palette, j, k)
}

/// Column and row of the pixel that byte `i` belongs to.
pub open spec fn pixel_x(i: int) -> int {
    (i / 4) % (WIDTH as int)
}

pub open spec fn pixel_y(i: int) -> int {
    (i / 4) / (WIDTH as int)
}

pub open spec fn dist2(x: int, y: int, c: Point) -> int {
    (x - c.x) * (x - c.x) + (y - c.y) * (y - c.y)
}

proof fn lemma_touches_pixel(p: Point, i: int)
    requires
        touches(p, i),
    ensures
        pixel_x(i) == p.x,
        pixel_y(i) == p.y,
{
    let k = p.x + p.y * 640;
    vstd::arithmetic::div_mod::lemma_fundamental_div_mod_converse(i, 4, k, i - 4 * k);
    vstd::arithmetic::div_mod::lemma_fundamental_div_mod_converse(k, 640, p.y as int, p.x as int);
}

/// The pixels strictly closer than `r` to `c`.
pub open spec fn disc(c: Point, r: int) -> spec_fn(int, int) -> bool {
    |px: int, py: int| dist2(px, py, c) < r * r
}

/// The pixels of the rectangle from `tl` to `br`, both corners included.
pub open spec fn rect(tl: Point, br: Point) -> spec_fn(int, int) -> bool {
    |px: int, py: int| tl.x <= px <= br.x && tl.y <= py <= br.y
}

/// Pixel `(px, py)` comes before `(x, y)` in column-major order.
pub open spec fn visited(px: int, py: int, x: int, y: int) -> bool {
    px < x || (px == x && py < y)
}

/// Every pixel before `(x, y)` inside the region has had the pen put on its
/// value in `old`; every other pixel is as in `old`.
pub open spec fn filled(
    buf: Seq<u8>,
    old: Seq<u8>,
    mode: BlendMode,
    pen: Seq<u8>,
    inside: spec_fn(int, int) -> bool,
    x: int,
    y: int,
) -> bool {
    forall|px: int, py: int| 0 <= px < WIDTH && 0 <= py < HEIGHT ==>
        if visited(px, py, x, y) && inside(px, py) {
            pixel_at(buf, #[trigger] index_of(px, py)) == composite(mode, pen, pixel_at(old, index_of(px, py)))
        } else {
            pixel_at(buf, index_of(px, py)) == pixel_at(old, index_of(px, py))
        }
}

proof fn lemma_index_apart(x: int, y: int, px: int, py: int)
    requires
        0 <= x < WIDTH,
        0 <= y < HEIGHT,
        0 <= px < WIDTH,
        0 <= py < HEIGHT,
        x != px || y != py,
    ensures
        index_of(x, y) + 4 <= index_of(px, py) || index_of(px, py) + 4 <= index_of(x, y),
{
    assert(x + y * 640 != px + py * 640) by (nonlinear_arith)
        requires
            0 <= x < 640,
            0 <= px < 640,
            x != px || y != py,
    ;
}

/// One more pixel of the region's walk: drawing `(x, y)` if it is inside.
proof fn lemma_fill_step(
    before: Seq<u8>,
    after: Seq<u8>,
    old: Seq<u8>,
    mode: BlendMode,
    pen: Seq<u8>,
    inside: spec_fn(int, int) -> bool,
    x: int,
    y: int,
)
    requires
        before.len() == BUFFER_LEN,
        old.len() == BUFFER_LEN,
        pen.len() == 4,
        0 <= x < WIDTH,
        0 <= y < HEIGHT,
        filled(before, old, mode, pen, inside, x, y),
        after == if inside(x, y) { point_spec(before, mode, pen, Point { x: x as i64, y: y as i64 }) } else { before },
    ensures
        filled(after, old, mode, pen, inside, x, y + 1),
{
    lemma_index_in_buffer(x, y);
    let i = index_of(x, y);
    assert forall|px: int, py: int| 0 <= px < WIDTH && 0 <= py < HEIGHT implies
        if visited(px, py, x, y + 1) && inside(px, py) {
            pixel_at(after, #[trigger] index_of(px, py)) == composite(mode, pen, pixel_at(old, index_of(px, py)))
        } else {
            pixel_at(after, index_of(px, py)) == pixel_at(old, index_of(px, py))
        } by {
        lemma_index_in_buffer(px, py);
        let j = index_of(px, py);
        if inside(x, y) {
            let px_new = composite(mode, pen, pixel_at(before, i));
            assert(px_new.len() == 4) by {
                if mode == BlendMode::Blend {
                    assert(px_new.len() == 4);
                }
            }
            if px == x && py == y {
                assert(pixel_at(after, j) =~= px_new);
                assert(pixel_at(before, i) == pixel_at(old, i));
            } else {
                lemma_index_apart(x, y, px, py);
                assert(pixel_at(after, j) =~= pixel_at(before, j));
            }
        } else {
            if px == x && py == y {
                assert(pixel_at(before, i) == pixel_at(old, i));
            }
        }
    }
}

/// Moving from the end of one column to the top of the next; the pixels
/// left in the column lie outside the region.
proof fn lemma_fill_column(
    buf: Seq<u8>,
    old: Seq<u8>,
    mode: BlendMode,
    pen: Seq<u8>,
    inside: spec_fn(int, int) -> bool,
    x: int,
    y: int,
)
    requires
        filled(buf, old, mode, pen, inside, x, y),
        forall|py: int| y <= py < HEIGHT ==> !#[trigger] inside(x, py),
    ensures
        filled(buf, old, mode, pen, inside, x + 1, 0),
{
    assert forall|px: int, py: int| 0 <= px < WIDTH && 0 <= py < HEIGHT implies
        if visited(px, py, x + 1, 0) && inside(px, py) {
            pixel_at(buf, #[trigger] index_of(px, py)) == composite(mode, pen, pixel_at(old, index_of(px, py)))
        } else {
            pixel_at(buf, index_of(px, py)) == pixel_at(old, index_of(px, py))
        } by {
        if px == x && py >= y {
            assert(!inside(x, py));
        }
    }
}

/// Skipping pixels of a column that lie outside the region.
proof fn lemma_fill_skip(
    buf: Seq<u8>,
    old: Seq<u8>,
    mode: BlendMode,
    pen: Seq<u8>,
    inside: spec_fn(int, int) -> bool,
    x: int,
    y: int,
    y2: int,
)
    requires
        filled(buf, old, mode, pen, inside, x, y),
        y <= y2,
        forall|py: int| y <= py < y2 ==> !#[trigger] inside(x, py),
    ensures
        filled(buf, old, mode, pen, inside, x, y2),
{
    assert forall|px: int, py: int| 0 <= px < WIDTH && 0 <= py < HEIGHT implies
        if visited(px, py, x, y2) && inside(px, py) {
            pixel_at(buf, #[trigger] index_of(px, py)) == composite(mode, pen, pixel_at(old, index_of(px, py)))
        } else {
            pixel_at(buf, index_of(px, py)) == pixel_at(old, index_of(px, py))
        } by {
        if px == x && y <= py < y2 {
            assert(!inside(x, py));
        }
    }
}

proof fn lemma_outside_disc(px: int, py: int, c: Point, r: int)
    requires
        0 <= r,
        px - c.x >= r || px - c.x <= -r || py - c.y >= r || py - c.y <= -r,
    ensures
        !disc(c, r)(px, py),
{
    let dx = px - c.x;
    let dy = py - c.y;
    assert(dx * dx + dy * dy >= r * r) by (nonlinear_arith)
        requires
            0 <= r,
            dx >= r || dx <= -r || dy >= r || dy <= -r,
    ;
}

proof fn lemma_point_frame(buf: Seq<u8>, mode: BlendMode, pen: Seq<u8>, p: Point, i: int)
    requires
        !touches(p, i),
        buf.len() == BUFFER_LEN,
    ensures
        point_spec(buf, mode, pen, p).len() == buf.len(),
        0 <= i < buf.len() ==> point_spec(buf, mode, pen, p)[i] == buf[i],
{
    if in_bounds(p) {
        lemma_index_in_buffer(p.x as int, p.y as int);
    }
}

proof fn lemma_lerp_between(a: int, b: int, s: int, n: int)
    requires
        0 <= s <= n,
        n >= 1,
    ensures
        a <= b ==> a <= lerp(a, b, s, n) <= b,
        b < a ==> b <= lerp(a, b, s, n) <= a,
{
    if a <= b {
        assert(0 <= (b - a) * s <= (b - a) * n) by (nonlinear_arith)
            requires
                a <= b,
                0 <= s <= n,
        ;
        vstd::arithmetic::div_mod::lemma_div_is_ordered(0, (b - a) * s, n);
        vstd::arithmetic::div_mod::lemma_div_is_ordered((b - a) * s, (b - a) * n, n);
        vstd::arithmetic::div_mod::lemma_div_multiples_vanish(b - a, n);
        assert(n * (b - a) == (b - a) * n) by (nonlinear_arith);
    } else {
        assert((b - a) * n <= (b - a) * s <= 0) by (nonlinear_arith)
            requires
                b < a,
                0 <= s <= n,
        ;
        vstd::arithmetic::div_mod::lemma_div_is_ordered((b - a) * s, 0, n);
        vstd::arithmetic::div_mod::lemma_div_is_ordered((b - a) * n, (b - a) * s, n);
        vstd::arithmetic::div_mod::lemma_div_multiples_vanish(b - a, n);
        assert(n * (b - a) == (b - a) * n) by (nonlinear_arith);
    }
}

/// `lerp` on machine integers.
fn lerp_exec(a: i64, b: i64, s: i64, n: i64) -> (r: i64)
    requires
        -0x4000_0000 <= a <= 0x4000_0000,
        -0x4000_0000 <= b <= 0x4000_0000,
        0 <= s <= n,
        1 <= n <= 0x4_0000_0000,
    ensures
        r == lerp(a as int, b as int, s as int, n as int),
        -0x4000_0000 <= r <= 0x4000_0000,
{
    proof {
        lemma_lerp_between(a as int, b as int, s as int, n as int);
        let d = b - a;
        assert(-0x2_0000_0000_0000_0000 <= d * s <= 0x2_0000_0000_0000_0000) by (nonlinear_arith)
            requires
                -0x8000_0000 <= d <= 0x8000_0000,
                0 <= s <= 0x4_0000_0000,
        ;
    }
    let d: i128 = b as i128 - a as i128;
    let q: i128 = div_floor(d * s as i128, n as i128);
    (a as i128 + q) as i64
}

fn abs_exec(v: i64) -> (r: i64)
    requires
        -0x1_0000_0000 <= v <= 0x1_0000_0000,
    ensures
        r == abs_int(v as int),
{
    if v < 0 { -v } else { v }
}

proof fn lemma_floor_sqrt(n: int, r: int)
    requires
        0 <= r,
        r * r <= n < (r + 1) * (r + 1),
    ensures
        floor_sqrt(n) == r,
{
    assert(is_root(r, n));
    let q = floor_sqrt(n);
    assert(is_root(q, n));
    if q < r {
        assert((q + 1) * (q + 1) <= r * r) by (nonlinear_arith)
            requires
                0 <= q < r,
        ;
    } else if r < q {
        assert((r + 1) * (r + 1) <= q * q) by (nonlinear_arith)
            requires
                0 <= r < q,
        ;
    }
}

/// Integer square root by binary search.
pub(crate) fn isqrt(n: u64) -> (r: u64)
    ensures
        r == floor_sqrt(n as int),
        r * r <= n,
        r <= 0x1_0000_0000,
{
    let mut lo: u128 = 0;
    let mut hi: u128 = 0x1_0000_0000;
    assert(n < hi * hi);
    while lo + 1 < hi
        invariant
            lo < hi <= 0x1_0000_0000,
            lo * lo <= n,
            n < hi * hi,
        decreases hi - lo,
    {
        let mid: u128 = lo + (hi - lo) / 2;
        assert(mid * mid <= 0x1_0000_0000 * 0x1_0000_0000) by (nonlinear_arith)
            requires
                mid <= 0x1_0000_0000,
        ;
        if mid * mid <= n as u128 {
            lo = mid;
        } else {
            hi = mid;
        }
    }
    proof {
        lemma_floor_sqrt(n as int, lo as int);
    }
    lo as u64
}

proof fn lemma_sqrt_at_least(m: int, n: int)
    requires
        0 <= m,
        m * m <= n,
    ensures
        m <= floor_sqrt(n),
{
    lemma_sqrt_exists(n, m);
    let q = floor_sqrt(n);
    assert(is_root(q, n));
    if q < m {
        assert((q + 1) * (q + 1) <= m * m) by (nonlinear_arith)
            requires
                0 <= q < m,
        ;
    }
}

proof fn lemma_sqrt_exists(n: int, m: int)
    requires
        0 <= m,
        m * m <= n,
    ensures
        exists|r: int| is_root(r, n),
    decreases n - m * m,
{
    if n < (m + 1) * (m + 1) {
        assert(is_root(m, n));
    } else {
        assert(m * m < (m + 1) * (m + 1)) by (nonlinear_arith)
            requires
                0 <= m,
        ;
        lemma_sqrt_exists(n, m + 1);
    }
}

/// Euclidean distance between two points, rounded down.
fn dist_exec(a: Point, b: Point) -> (r: i64)
    requires
        coord_ok(a),
        coord_ok(b),
    ensures
        r == dist(a, b),
        cheb(a, b) <= r <= 0xC000_0000,
{
    let dx: i64 = a.x - b.x;
    let dy: i64 = a.y - b.y;
    assert(0 <= dx * dx <= 0x4000_0000_0000_0000 && 0 <= dy * dy <= 0x4000_0000_0000_0000)
        by (nonlinear_arith)
        requires
            -0x8000_0000 <= dx <= 0x8000_0000,
            -0x8000_0000 <= dy <= 0x8000_0000,
    ;
    let sq: u64 = (dx as i128 * dx as i128 + dy as i128 * dy as i128) as u64;
    let r = isqrt(sq);
    proof {
        let ax = abs_int(dx as int);
        let ay = abs_int(dy as int);
        assert(ax * ax == dx * dx && ay * ay == dy * dy) by (nonlinear_arith)
            requires
                ax == dx || ax == -dx,
                ay == dy || ay == -dy,
        ;
        assert(ax * ax <= sq && ay * ay <= sq) by (nonlinear_arith)
            requires
                sq == dx * dx + dy * dy,
                ax * ax == dx * dx,
                ay * ay == dy * dy,
                0 <= dx * dx,
                0 <= dy * dy,
        ;
        lemma_sqrt_at_least(ax, sq as int);
        lemma_sqrt_at_least(ay, sq as int);
        assert(r * r <= sq);
        assert(r <= 0xC000_0000) by (nonlinear_arith)
            requires
                0 <= r,
                r * r <= sq,
                sq <= 0x8000_0000_0000_0000,
        ;
    }
    r as i64
}

fn cheb_exec(a: Point, b: Point) -> (r: i64)
    requires
        coord_ok(a),
        coord_ok(b),
    ensures
        r == cheb(a, b),
        0 <= r <= 0x8000_0000,
{
    let dx = abs_exec(a.x - b.x);
    let dy = abs_exec(a.y - b.y);
    if dx < dy { dy } else { dx }
}

proof fn lemma_index_in_buffer(x: int, y: int)
    requires
        0 <= x < WIDTH,
        0 <= y < HEIGHT,
    ensures
        0 <= index_of(x, y),
        index_of(x, y) + 4 <= BUFFER_LEN,
{
    assert(0 <= (x + y * 640) * 4 && (x + y * 640) * 4 + 4 <= 1228800) by (nonlinear_arith)
        requires
            0 <= x < 640,
            0 <= y < 480,
    ;
}

impl Canvas {
    pub open spec fn wf(&self) -> bool {
        self.buffer@.len() == BUFFER_LEN && self.palette@.len() > 0
    }

    /// A canvas of opaque white pixels with the given palette and a white
    /// pen that replaces.
    pub fn new(palette: Vec<[u8; 4]>) -> (r: Canvas)
        requires
            palette@.len() > 0,
        ensures
            r.wf(),
            r.palette@ == palette@,
            forall|i: int| 0 <= i < BUFFER_LEN ==> r.buffer@[i] == 255,
            r.pen_color@ == seq![255u8, 255u8, 255u8, 255u8],
            r.blend_mode == BlendMode::Replace,
    {
        let mut buffer: Vec<u8> = Vec::with_capacity(BUFFER_LEN);
        let mut i: usize = 0;
        while i < BUFFER_LEN
            invariant
                i <= BUFFER_LEN,
                buffer@.len() == i,
                forall|j: int| 0 <= j < i ==> buffer@[j] == 255,
            decreases BUFFER_LEN - i,
        {
            buffer.push(255);
            i = i + 1;
        }
        let pen_color: [u8; 4] = [255, 255, 255, 255];
        assert(pen_color@ =~= seq![255u8, 255u8, 255u8, 255u8]);
        Canvas { buffer, palette, pen_color, blend_mode: BlendMode::Replace }
    }

    /// Sets the pen to the palette entry `color`, counted modulo the
    /// palette's length.
    pub fn select_color(&mut self, color: u8)
        requires
            old(self).wf(),
        ensures
            final(self).wf(),
            final(self).pen_color == old(self).palette@[color as int % old(self).palette@.len() as int],
            final(self).buffer == old(self).buffer,
            final(self).palette == old(self).palette,
            final(self).blend_mode == old(self).blend_mode,
    {
        self.pen_color = self.palette[color as usize % self.palette.len()];
    }

    /// Adds `value` to every byte, clamped to `0..=255`.
    pub fn dim(&mut self, value: i16)
        requires
            old(self).wf(),
        ensures
            final(self).wf(),
            forall|i: int| 0 <= i < BUFFER_LEN ==>
                final(self).buffer@[i] == clamp_byte(old(self).buffer@[i] + value),
            final(self).palette == old(self).palette,
            final(self).pen_color == old(self).pen_color,
            final(self).blend_mode == old(self).blend_mode,
    {
        let mut i: usize = 0;
        while i < self.buffer.len()
            invariant
                self.wf(),
                i <= BUFFER_LEN,
                self.palette == old(self).palette,
                self.pen_color == old(self).pen_color,
                self.blend_mode == old(self).blend_mode,
                forall|j: int| 0 <= j < i ==> self.buffer@[j] == clamp_byte(old(self).buffer@[j] + value),
                forall|j: int| i <= j < BUFFER_LEN ==> self.buffer@[j] == old(self).buffer@[j],
            decreases BUFFER_LEN - i,
        {
            let v: i32 = self.buffer[i] as i32 + value as i32;
            let new: u8 = if v < 0 { 0 } else if v > 255 { 255 } else { v as u8 };
            self.buffer.set(i, new);
            i = i + 1;
        }
    }

    /// Sets every byte to zero.
    pub fn clear(&mut self)
        requires
            old(self).wf(),
        ensures
            final(self).wf(),
            forall|i: int| 0 <= i < BUFFER_LEN ==> final(self).buffer@[i] == 0,
            final(self).palette == old(self).palette,
            final(self).pen_color == old(self).pen_color,
            final(self).blend_mode == old(self).blend_mode,
    {
        let mut i: usize = 0;
        while i < self.buffer.len()
            invariant
                self.wf(),
                i <= BUFFER_LEN,
                self.palette == old(self).palette,
                self.pen_color == old(self).pen_color,
                self.blend_mode == old(self).blend_mode,
                forall|j: int| 0 <= j < i ==> self.buffer@[j] == 0,
            decreases BUFFER_LEN - i,
        {
            self.buffer.set(i, 0);
            i = i + 1;
        }
    }

    /// Index of the first byte of pixel `(x, y)`.
    pub fn idx(&self, x: usize, y: usize) -> (r: usize)
        requires
            x < WIDTH,
            y < HEIGHT,
        ensures
            r == index_of(x as int, y as int),
            r + 4 <= BUFFER_LEN,
    {
        proof {
            lemma_index_in_buffer(x as int, y as int);
        }
        (x + y * WIDTH) * 4
    }

    /// Writes the pen colour over the pixel at `buffer_idx`.
    pub fn point_replace(&mut self, buffer_idx: usize)
        requires
            old(self).wf(),
            buffer_idx + 4 <= BUFFER_LEN,
        ensures
            final(self).wf(),
            final(self).buffer@ == put_pixel(old(self).buffer@, buffer_idx as int, old(self).pen_color@),
            final(self).palette == old(self).palette,
            final(self).pen_color == old(self).pen_color,
            final(self).blend_mode == old(self).blend_mode,
    {
        self.buffer.set(buffer_idx, self.pen_color[0]);
        self.buffer.set(buffer_idx + 1, self.pen_color[1]);
        self.buffer.set(buffer_idx + 2, self.pen_color[2]);
        self.buffer.set(buffer_idx + 3, self.pen_color[3]);
    }

    /// Alpha-composites the pen colour over the pixel at `buffer_idx`.
    pub fn point_blend(&mut self, buffer_idx: usize)
        requires
            old(self).wf(),
            buffer_idx + 4 <= BUFFER_LEN,
        ensures
            final(self).wf(),
            final(self).buffer@ == put_pixel(
                old(self).buffer@,
                buffer_idx as int,
                composite(BlendMode::Blend, old(self).pen_color@, pixel_at(old(self).buffer@, buffer_idx as int)),
            ),
            old(self).pen_color[3] == 0 ==> final(self).buffer@ == old(self).buffer@,
            old(self).pen_color[3] == 255 ==> final(self).buffer@ == put_pixel(
                old(self).buffer@,
                buffer_idx as int,
                old(self).pen_color@,
            ),
            final(self).palette == old(self).palette,
            final(self).pen_color == old(self).pen_color,
            final(self).blend_mode == old(self).blend_mode,
    {
        let ghost dst = pixel_at(self.buffer@, buffer_idx as int);
        let ghost px = composite(BlendMode::Blend, self.pen_color@, dst);
        let r: u8 = self.pen_color[0];
        let g: u8 = self.pen_color[1];
        let b: u8 = self.pen_color[2];
        let a: u8 = self.pen_color[3];
        if a == 0 {
            proof {
                assert forall|c: int| 0 <= c < 4 implies px[c] == dst[c] by {
                    assert(blend_channel(self.pen_color@[c] as int, 0, dst[c] as int) == dst[c] as int);
                }
                assert(put_pixel(self.buffer@, buffer_idx as int, px) =~= self.buffer@);
            }
            return;
        } else if a == 255 {
            proof {
                assert forall|c: int| 0 <= c < 4 implies px[c] == self.pen_color@[c] by {
                    assert(blend_channel(self.pen_color@[c] as int, 255, dst[c] as int) == self.pen_color@[c] as int);
                }
                assert(px =~= self.pen_color@);
            }
            self.point_replace(buffer_idx);
            return;
        }
        let nr: u8 = Self::mix(r, a, self.buffer[buffer_idx]);
        let ng: u8 = Self::mix(g, a, self.buffer[buffer_idx + 1]);
        let nb: u8 = Self::mix(b, a, self.buffer[buffer_idx + 2]);
        let na: u8 = Self::mix(a, a, self.buffer[buffer_idx + 3]);
        self.buffer.set(buffer_idx, nr);
        self.buffer.set(buffer_idx + 1, ng);
        self.buffer.set(buffer_idx + 2, nb);
        self.buffer.set(buffer_idx + 3, na);
    }

    fn mix(pen: u8, alpha: u8, dst: u8) -> (r: u8)
        ensures
            r as int == blend_channel(pen as int, alpha as int, dst as int),
    {
        let p: u32 = pen as u32;
        let al: u32 = alpha as u32;
        let d: u32 = dst as u32;
        assert(p * al <= 255 * 255 && d * (255 - al) <= 255 * 255) by (nonlinear_arith)
            requires
                p <= 255,
                al <= 255,
                d <= 255,
        ;
        proof {
            let t: int = p * al + d * (255 - al);
            assert(t <= 255 * 255) by (nonlinear_arith)
                requires
                    p <= 255,
                    al <= 255,
                    d <= 255,
                    t == p * al + d * (255 - al),
            ;
            vstd::arithmetic::div_mod::lemma_div_is_ordered(t as int, 65025int, 255int);
        }
        ((p * al + d * (255 - al)) / 255) as u8
    }

    /// Puts the pen on the pixel at `pos`; a point off the canvas is ignored.
    pub fn draw_point(&mut self, pos: Point)
        requires
            old(self).wf(),
        ensures
            final(self).wf(),
            final(self).buffer@ == point_spec(old(self).buffer@, old(self).blend_mode, old(self).pen_color@, pos),
            final(self).palette == old(self).palette,
            final(self).pen_color == old(self).pen_color,
            final(self).blend_mode == old(self).blend_mode,
    {
        if pos.x >= WIDTH as i64 || pos.x < 0 || pos.y >= HEIGHT as i64 || pos.y < 0 {
            return;
        }
        let buffer_idx = self.idx(pos.x as usize, pos.y as usize);
        match self.blend_mode {
            BlendMode::Replace => self.point_replace(buffer_idx),
            BlendMode::Blend => self.point_blend(buffer_idx),
        }
    }
    /// Draws `n` samples of the segment, `n` being the larger of its
    /// horizontal and vertical extents: sample `s` lies `s` unit steps from
    /// `from` towards `to`, so `to` itself is not drawn, and a segment of
    /// length zero draws nothing.
    pub fn draw_line(&mut self, from: Point, to: Point)
        requires
            old(self).wf(),
            from != to ==> coord_ok(from) && coord_ok(to),
        ensures
            final(self).wf(),
            final(self).buffer@ == line_fold(
                old(self).buffer@,
                old(self).blend_mode,
                old(self).pen_color@,
                from,
                to,
                line_steps(from, to),
            ),
            forall|i: int| 0 <= i < BUFFER_LEN && line_misses(from, to, line_steps(from, to), i)
                ==> final(self).buffer@[i] == old(self).buffer@[i],
            from == to ==> final(self).buffer@ == old(self).buffer@,
            final(self).palette == old(self).palette,
            final(self).pen_color == old(self).pen_color,
            final(self).blend_mode == old(self).blend_mode,
    {
        if from == to {
            return;
        }
        let n: i64 = cheb_exec(to, from);
        let len: i64 = dist_exec(to, from);
        assert(n == line_steps(from, to));
        let mut step: i64 = 0;
        while step < n
            invariant
                self.wf(),
                0 <= step <= n,
                n == line_steps(from, to),
                n <= len <= 0xC000_0000,
                len == dist(to, from),
                coord_ok(from),
                coord_ok(to),
                self.palette == old(self).palette,
                self.pen_color == old(self).pen_color,
                self.blend_mode == old(self).blend_mode,
                self.buffer@ == line_fold(old(self).buffer@, self.blend_mode, self.pen_color@, from, to, step as int),
                forall|i: int| 0 <= i < BUFFER_LEN && line_misses(from, to, step as int, i)
                    ==> self.buffer@[i] == old(self).buffer@[i],
            decreases n - step,
        {
            let x = lerp_exec(from.x, to.x, step, len);
            let y = lerp_exec(from.y, to.y, step, len);
            let p = Point::new(x, y);
            assert(p == line_sample(from, to, step as int));
            let ghost before = self.buffer@;
            self.draw_point(p);
            proof {
                assert forall|i: int| 0 <= i < BUFFER_LEN && line_misses(from, to, step + 1, i)
                    implies self.buffer@[i] == old(self).buffer@[i] by {
                    assert(!touches(line_sample(from, to, step as int), i));
                    assert(line_misses(from, to, step as int, i));
                    lemma_point_frame(before, self.blend_mode, self.pen_color@, p, i);
                }
            }
            step = step + 1;
        }
    }

    /// Draws the quadratic Bezier curve from `start` to `end` bent towards
    /// `control`, at samples `1..n`, `n` being the sum of the Euclidean
    /// distances between the three points.
    pub fn draw_curve(&mut self, start: Point, control: Point, end: Point)
        requires
            old(self).wf(),
            coord_ok(start),
            coord_ok(control),
            coord_ok(end),
        ensures
            final(self).wf(),
            final(self).buffer@ == curve_fold(
                old(self).buffer@,
                old(self).blend_mode,
                old(self).pen_color@,
                start,
                control,
                end,
                curve_steps(start, control, end),
            ),
            forall|i: int| 0 <= i < BUFFER_LEN && curve_misses(start, control, end, curve_steps(start, control, end), i)
                ==> final(self).buffer@[i] == old(self).buffer@[i],
            final(self).palette == old(self).palette,
            final(self).pen_color == old(self).pen_color,
            final(self).blend_mode == old(self).blend_mode,
    {
        let n: i64 = dist_exec(start, control) + dist_exec(control, end) + dist_exec(end, start);
        let mut step: i64 = 1;
        while step < n
            invariant
                self.wf(),
                1 <= step,
                step <= n || n == 0,
                n == 0 ==> step == 1,
                n == curve_steps(start, control, end),
                0 <= n <= 0x2_4000_0000,
                coord_ok(start),
                coord_ok(control),
                coord_ok(end),
                self.palette == old(self).palette,
                self.pen_color == old(self).pen_color,
                self.blend_mode == old(self).blend_mode,
                self.buffer@ == curve_fold(old(self).buffer@, self.blend_mode, self.pen_color@, start, control, end, step as int),
                forall|i: int| 0 <= i < BUFFER_LEN && curve_misses(start, control, end, step as int, i)
                    ==> self.buffer@[i] == old(self).buffer@[i],
            decreases n - step,
        {
            let p1 = Point::new(lerp_exec(start.x, control.x, step, n), lerp_exec(start.y, control.y, step, n));
            let p2 = Point::new(lerp_exec(control.x, end.x, step, n), lerp_exec(control.y, end.y, step, n));
            let p3 = Point::new(lerp_exec(p1.x, p2.x, step, n), lerp_exec(p1.y, p2.y, step, n));
            assert(p3 == curve_sample(start, control, end, step as int));
            let ghost before = self.buffer@;
            self.draw_point(p3);
            proof {
                assert forall|i: int| 0 <= i < BUFFER_LEN && curve_misses(start, control, end, step + 1, i)
                    implies self.buffer@[i] == old(self).buffer@[i] by {
                    assert(!touches(curve_sample(start, control, end, step as int), i));
                    assert(curve_misses(start, control, end, step as int, i));
                    lemma_point_frame(before, self.blend_mode, self.pen_color@, p3, i);
                }
            }
            step = step + 1;
        }
        proof {
            if n == 0 {
                assert(curve_fold(old(self).buffer@, self.blend_mode, self.pen_color@, start, control, end, 0)
                    == old(self).buffer@);
            }
            assert forall|i: int| 0 <= i < BUFFER_LEN && curve_misses(start, control, end, n as int, i)
                implies self.buffer@[i] == old(self).buffer@[i] by {
                if n > 0 {
                    assert(step == n);
                } else {
                    assert(curve_misses(start, control, end, step as int, i));
                }
            }
        }
    }

    /// Fills the pixels strictly closer than `radius` to `pos`; a radius of
    /// zero or less draws nothing.
    pub fn draw_circle(&mut self, pos: Point, radius: i64)
        requires
            old(self).wf(),
            coord_ok(pos),
            radius <= 0x4000_0000,
        ensures
            final(self).wf(),
            radius <= 0 ==> final(self).buffer@ == old(self).buffer@,
            forall|i: int| 0 <= i < BUFFER_LEN && dist2(pixel_x(i), pixel_y(i), pos) >= radius * radius
                ==> final(self).buffer@[i] == old(self).buffer@[i],
            forall|px: int, py: int| radius > 0 && 0 <= px < WIDTH && 0 <= py < HEIGHT && dist2(px, py, pos) < radius * radius
                ==> pixel_at(final(self).buffer@, #[trigger] index_of(px, py))
                == composite(old(self).blend_mode, old(self).pen_color@, pixel_at(old(self).buffer@, index_of(px, py))),
            final(self).palette == old(self).palette,
            final(self).pen_color == old(self).pen_color,
            final(self).blend_mode == old(self).blend_mode,
    {
        if radius <= 0 {
            return;
        }
        let ghost inside = disc(pos, radius as int);
        assert(radius * radius <= 0x1000_0000_0000_0000) by (nonlinear_arith)
            requires
                0 <= radius <= 0x4000_0000,
        ;
        let r2: i128 = radius as i128 * radius as i128;
        let lo_x: i64 = if pos.x - radius < 0 { 0 } else { pos.x - radius };
        let hi_x: i64 = if pos.x + radius > WIDTH as i64 - 1 { WIDTH as i64 - 1 } else { pos.x + radius };
        let lo_y: i64 = if pos.y - radius < 0 { 0 } else { pos.y - radius };
        let hi_y: i64 = if pos.y + radius > HEIGHT as i64 - 1 { HEIGHT as i64 - 1 } else { pos.y + radius };
        proof {
            assert forall|px: int, py: int| 0 <= px < WIDTH && 0 <= py < HEIGHT implies
                if visited(px, py, lo_x as int, 0) && inside(px, py) {
                    pixel_at(self.buffer@, #[trigger] index_of(px, py))
                        == composite(self.blend_mode, self.pen_color@, pixel_at(old(self).buffer@, index_of(px, py)))
                } else {
                    pixel_at(self.buffer@, index_of(px, py)) == pixel_at(old(self).buffer@, index_of(px, py))
                } by {
                if px < lo_x {
                    lemma_outside_disc(px, py, pos, radius as int);
                }
            }
        }
        let mut x: i64 = lo_x;
        while x <= hi_x
            invariant
                self.wf(),
                0 <= lo_x <= x,
                hi_x < WIDTH,
                0 <= lo_y,
                hi_y < HEIGHT,
                r2 == radius * radius,
                coord_ok(pos),
                self.palette == old(self).palette,
                self.pen_color == old(self).pen_color,
                self.blend_mode == old(self).blend_mode,
                forall|i: int| 0 <= i < BUFFER_LEN && dist2(pixel_x(i), pixel_y(i), pos) >= radius * radius
                    ==> self.buffer@[i] == old(self).buffer@[i],
                inside == disc(pos, radius as int),
                lo_x == (if pos.x - radius < 0 { 0 } else { pos.x - radius }),
                hi_x == (if pos.x + radius > WIDTH - 1 { WIDTH - 1 } else { pos.x + radius }),
                lo_y == (if pos.y - radius < 0 { 0 } else { pos.y - radius }),
                hi_y == (if pos.y + radius > HEIGHT - 1 { HEIGHT - 1 } else { pos.y + radius }),
                0 <= radius,
                old(self).wf(),
                x <= hi_x + 1 || x == lo_x,
                filled(self.buffer@, old(self).buffer@, self.blend_mode, self.pen_color@, inside, x as int, 0),
            decreases hi_x + 1 - x,
        {
            proof {
                assert forall|py: int| 0 <= py < lo_y implies !#[trigger] inside(x as int, py) by {
                    lemma_outside_disc(x as int, py, pos, radius as int);
                }
                lemma_fill_skip(self.buffer@, old(self).buffer@, self.blend_mode, self.pen_color@, inside, x as int, 0, lo_y as int);
            }
            let mut y: i64 = lo_y;
            while y <= hi_y
                invariant
                    self.wf(),
                    0 <= x < WIDTH,
                    0 <= lo_y <= y,
                    hi_y < HEIGHT,
                    r2 == radius * radius,
                    coord_ok(pos),
                    self.palette == old(self).palette,
                    self.pen_color == old(self).pen_color,
                    self.blend_mode == old(self).blend_mode,
                    forall|i: int| 0 <= i < BUFFER_LEN && dist2(pixel_x(i), pixel_y(i), pos) >= radius * radius
                        ==> self.buffer@[i] == old(self).buffer@[i],
                    inside == disc(pos, radius as int),
                    hi_y == (if pos.y + radius > HEIGHT - 1 { HEIGHT - 1 } else { pos.y + radius }),
                    0 <= radius,
                    old(self).wf(),
                    lo_y == (if pos.y - radius < 0 { 0 } else { pos.y - radius }),
                    y <= hi_y + 1 || y == lo_y,
                    filled(self.buffer@, old(self).buffer@, self.blend_mode, self.pen_color@, inside, x as int, y as int),
                decreases hi_y + 1 - y,
            {
                let ghost before = self.buffer@;
                let dx: i128 = x as i128 - pos.x as i128;
                let dy: i128 = y as i128 - pos.y as i128;
                assert(0 <= dx * dx <= 0x1_0000_0000_0000_0000 && 0 <= dy * dy <= 0x1_0000_0000_0000_0000)
                    by (nonlinear_arith)
                    requires
                        -0x8000_0000 <= dx <= 0x8000_0000,
                        -0x8000_0000 <= dy <= 0x8000_0000,
                ;
                if dx * dx + dy * dy < r2 {
                    let p = Point::new(x, y);
                    self.draw_point(p);
                    proof {
                        assert forall|i: int| 0 <= i < BUFFER_LEN && dist2(pixel_x(i), pixel_y(i), pos) >= radius * radius
                            implies self.buffer@[i] == old(self).buffer@[i] by {
                            if touches(p, i) {
                                lemma_touches_pixel(p, i);
                            }
                            lemma_point_frame(before, self.blend_mode, self.pen_color@, p, i);
                        }
                    }
                }
                proof {
                    lemma_fill_step(before, self.buffer@, old(self).buffer@, self.blend_mode, self.pen_color@, inside, x as int, y as int);
                }
                y = y + 1;
            }
            proof {
                assert forall|py: int| y <= py < HEIGHT implies !#[trigger] inside(x as int, py) by {
                    lemma_outside_disc(x as int, py, pos, radius as int);
                }
                lemma_fill_column(self.buffer@, old(self).buffer@, self.blend_mode, self.pen_color@, inside, x as int, y as int);
            }
            x = x + 1;
        }
        proof {
            assert forall|px: int, py: int| 0 <= px < WIDTH && 0 <= py < HEIGHT && dist2(px, py, pos) < radius * radius
                implies pixel_at(self.buffer@, #[trigger] index_of(px, py))
                == composite(old(self).blend_mode, old(self).pen_color@, pixel_at(old(self).buffer@, index_of(px, py))) by {
                if px >= x {
                    lemma_outside_disc(px, py, pos, radius as int);
                }
                assert(inside(px, py));
            }
        }
    }

    /// Fills the pixels of the rectangle from `top_left` to `bottom_right`,
    /// both corners included.
    pub fn draw_square(&mut self, top_left: Point, bottom_right: Point)
        requires
            old(self).wf(),
            coord_ok(top_left),
            coord_ok(bottom_right),
        ensures
            final(self).wf(),
            forall|i: int| 0 <= i < BUFFER_LEN && !(top_left.x <= pixel_x(i) <= bottom_right.x
                && top_left.y <= pixel_y(i) <= bottom_right.y)
                ==> final(self).buffer@[i] == old(self).buffer@[i],
            forall|px: int, py: int| 0 <= px < WIDTH && 0 <= py < HEIGHT && top_left.x <= px <= bottom_right.x
                && top_left.y <= py <= bottom_right.y
                ==> pixel_at(final(self).buffer@, #[trigger] index_of(px, py))
                == composite(old(self).blend_mode, old(self).pen_color@, pixel_at(old(self).buffer@, index_of(px, py))),
            final(self).palette == old(self).palette,
            final(self).pen_color == old(self).pen_color,
            final(self).blend_mode == old(self).blend_mode,
    {
        let lo_x: i64 = if top_left.x < 0 { 0 } else { top_left.x };
        let hi_x: i64 = if bottom_right.x > WIDTH as i64 - 1 { WIDTH as i64 - 1 } else { bottom_right.x };
        let lo_y: i64 = if top_left.y < 0 { 0 } else { top_left.y };
        let hi_y: i64 = if bottom_right.y > HEIGHT as i64 - 1 { HEIGHT as i64 - 1 } else { bottom_right.y };
        let ghost inside = rect(top_left, bottom_right);
        assert(filled(self.buffer@, old(self).buffer@, self.blend_mode, self.pen_color@, inside, lo_x as int, 0));
        let mut x: i64 = lo_x;
        while x <= hi_x
            invariant
                self.wf(),
                0 <= lo_x <= x,
                top_left.x <= lo_x,
                hi_x < WIDTH,
                hi_x <= bottom_right.x,
                0 <= lo_y,
                top_left.y <= lo_y,
                hi_y < HEIGHT,
                hi_y <= bottom_right.y,
                self.palette == old(self).palette,
                self.pen_color == old(self).pen_color,
                self.blend_mode == old(self).blend_mode,
                forall|i: int| 0 <= i < BUFFER_LEN && !(top_left.x <= pixel_x(i) <= bottom_right.x
                    && top_left.y <= pixel_y(i) <= bottom_right.y)
                    ==> self.buffer@[i] == old(self).buffer@[i],
                inside == rect(top_left, bottom_right),
                old(self).wf(),
                x <= hi_x + 1 || x == lo_x,
                lo_x == (if top_left.x < 0 { 0 } else { top_left.x }),
                hi_x == (if bottom_right.x > WIDTH - 1 { WIDTH - 1 } else { bottom_right.x as int }),
                lo_y == (if top_left.y < 0 { 0 } else { top_left.y }),
                hi_y == (if bottom_right.y > HEIGHT - 1 { HEIGHT - 1 } else { bottom_right.y as int }),
                filled(self.buffer@, old(self).buffer@, self.blend_mode, self.pen_color@, inside, x as int, 0),
            decreases hi_x + 1 - x,
        {
            proof {
                lemma_fill_skip(self.buffer@, old(self).buffer@, self.blend_mode, self.pen_color@, inside, x as int, 0, lo_y as int);
            }
            let mut y: i64 = lo_y;
            while y <= hi_y
                invariant
                    self.wf(),
                    top_left.x <= x <= hi_x,
                    0 <= x < WIDTH,
                    hi_x <= bottom_right.x,
                    0 <= lo_y <= y,
                    top_left.y <= lo_y,
                    hi_y < HEIGHT,
                    hi_y <= bottom_right.y,
                    self.palette == old(self).palette,
                    self.pen_color == old(self).pen_color,
                    self.blend_mode == old(self).blend_mode,
                    forall|i: int| 0 <= i < BUFFER_LEN && !(top_left.x <= pixel_x(i) <= bottom_right.x
                        && top_left.y <= pixel_y(i) <= bottom_right.y)
                        ==> self.buffer@[i] == old(self).buffer@[i],
                    inside == rect(top_left, bottom_right),
                    old(self).wf(),
                    y <= hi_y + 1 || y == lo_y,
                    lo_y == (if top_left.y < 0 { 0 } else { top_left.y }),
                    hi_y == (if bottom_right.y > HEIGHT - 1 { HEIGHT - 1 } else { bottom_right.y as int }),
                    filled(self.buffer@, old(self).buffer@, self.blend_mode, self.pen_color@, inside, x as int, y as int),
                decreases hi_y + 1 - y,
            {
                let p = Point::new(x, y);
                let ghost before = self.buffer@;
                self.draw_point(p);
                proof {
                    assert forall|i: int| 0 <= i < BUFFER_LEN && !(top_left.x <= pixel_x(i) <= bottom_right.x
                        && top_left.y <= pixel_y(i) <= bottom_right.y)
                        implies self.buffer@[i] == old(self).buffer@[i] by {
                        if touches(p, i) {
                            lemma_touches_pixel(p, i);
                        }
                        lemma_point_frame(before, self.blend_mode, self.pen_color@, p, i);
                    }
                    lemma_fill_step(before, self.buffer@, old(self).buffer@, self.blend_mode, self.pen_color@, inside, x as int, y as int);
                }
                y = y + 1;
            }
            proof {
                lemma_fill_column(self.buffer@, old(self).buffer@, self.blend_mode, self.pen_color@, inside, x as int, y as int);
            }
            x = x + 1;
        }
        assert(inside == rect(top_left, bottom_right));
    }
    /// Blends over each pixel `k` the palette colour `picks[k]` at a
    /// twentieth of its opacity.
    pub fn blend_noise(&mut self, picks: &Vec<usize>)
        requires
            old(self).wf(),
            picks@.len() == PIXELS,
            forall|k: int| 0 <= k < PIXELS ==> #[trigger] picks@[k] < old(self).palette@.len(),
        ensures
            final(self).wf(),
            forall|k: int| 0 <= k < PIXELS ==>
                #[trigger] noised(final(self).buffer@, old(self).buffer@, old(self).palette@, picks@[k] as int, k),
            final(self).palette == old(self).palette,
            final(self).blend_mode == old(self).blend_mode,
    {
        let mut k: usize = 0;
        while k < PIXELS
            invariant
                self.wf(),
                k <= PIXELS,
                picks@.len() == PIXELS,
                old(self).wf(),
                forall|m: int| 0 <= m < PIXELS ==> #[trigger] picks@[m] < old(self).palette@.len(),
                self.palette == old(self).palette,
                self.blend_mode == old(self).blend_mode,
                forall|m: int| 0 <= m < k ==>
                    #[trigger] noised(self.buffer@, old(self).buffer@, old(self).palette@, picks@[m] as int, m),
                forall|j: int| 4 * k <= j < BUFFER_LEN ==> self.buffer@[j] == old(self).buffer@[j],
            decreases PIXELS - k,
        {
            let c = self.palette[picks[k]];
            let change: [u8; 4] = [c[0], c[1], c[2], c[3] / 20];
            assert(change@ =~= faint(c@));
            self.pen_color = change;
            let ghost before = self.buffer@;
            assert(4 * k + 4 <= BUFFER_LEN);
            assert forall|j: int| 0 <= j < 4 implies #[trigger] pixel_at(before, 4 * k)[j]
                == pixel_at(old(self).buffer@, 4 * k)[j] by {
                assert(before[4 * k + j] == old(self).buffer@[4 * k + j]);
            }
            assert(pixel_at(before, 4 * k) =~= pixel_at(old(self).buffer@, 4 * k));
            self.point_blend(k * 4);
            proof {
                assert forall|m: int| 0 <= m < k + 1 implies
                    #[trigger] noised(self.buffer@, old(self).buffer@, old(self).palette@, picks@[m] as int, m) by {
                    if m < k {
                        assert(4 * m + 4 <= 4 * k);
                        assert(noised(before, old(self).buffer@, old(self).palette@, picks@[m] as int, m));
                        assert(pixel_at(self.buffer@, 4 * m) =~= pixel_at(before, 4 * m));
                    } else {
                        assert(change@ == faint(old(self).palette@[picks@[m] as int]@));
                        assert(pixel_at(self.buffer@, 4 * m) =~= composite(BlendMode::Blend, change@, pixel_at(before, 4 * k)));
                    }
                }
            }
            k = k + 1;
        }
    }

    /// Blends a faint random palette colour over every pixel.
    pub fn random(&mut self)
        requires
            old(self).wf(),
        ensures
            final(self).wf(),
            forall|k: int| 0 <= k < PIXELS ==>
                #[trigger] noised_by_some(final(self).buffer@, old(self).buffer@, old(self).palette@, k),
            final(self).palette == old(self).palette,
            final(self).blend_mode == old(self).blend_mode,
    {
        let mut picks: Vec<usize> = Vec::new();
        let mut k: usize = 0;
        while k < PIXELS
            invariant
                k <= PIXELS,
                picks@.len() == k,
                self.wf(),
                forall|m: int| 0 <= m < k ==> #[trigger] picks@[m] < self.palette@.len(),
            decreases PIXELS - k,
        {
            picks.push(random_usize(0, self.palette.len()));
            k = k + 1;
        }
        self.blend_noise(&picks);
        proof {
            assert forall|k: int| 0 <= k < PIXELS implies
                #[trigger] noised_by_some(self.buffer@, old(self).buffer@, old(self).palette@, k) by {
                assert(noised(self.buffer@, old(self).buffer@, old(self).palette@, picks@[k] as int, k));
            }
        }
    }
}

} // verus!
