use vstd::prelude::*;

use crate::graphics::{Face, FrontFace};

use vstd::arithmetic::div_mod::{
    lemma_div_is_ordered, lemma_fundamental_div_mod, lemma_fundamental_div_mod_converse,
    lemma_mod_pos_bound,
};

verus! {

// ---------------------------------------------------------------------------
// Bresenham line walking
// ---------------------------------------------------------------------------

/// A line between two pixel centres, in integer screen coordinates.
pub struct LineSegment {
    pub x0: int,
    pub y0: int,
    pub x1: int,
    pub y1: int,
}

/// A half-open pixel rectangle `[min_x, max_x) x [min_y, max_y)`.
pub struct TileRect {
    pub min_x: int,
    pub min_y: int,
    pub max_x: int,
    pub max_y: int,
}

pub open spec fn abs_diff(p: int, q: int) -> int {
    if p <= q { q - p } else { p - q }
}

pub open spec fn max_int(p: int, q: int) -> int {
    if p >= q { p } else { q }
}

pub open spec fn min_int(p: int, q: int) -> int {
    if p <= q { p } else { q }
}

/// The offset along the minor axis after `k` steps along the major axis of a
/// line that spans `major` pixels along the major axis and `minor` pixels along
/// the minor one: the ideal offset `minor * k / major`, rounded to the nearest
/// integer with halves rounded up.
pub open spec fn minor_offset(major: int, minor: int, k: int) -> int {
    if major == 0 { 0 } else { (2 * minor * k + major) / (2 * major) }
}

/// The number of steps from the first pixel of the line to the last: the
/// length of its longer axis.
pub open spec fn line_steps(seg: LineSegment) -> int {
    max_int(abs_diff(seg.x0, seg.x1), abs_diff(seg.y0, seg.y1))
}

/// How far, along each axis, the pixel `k` steps from the start lies from the
/// start.
pub open spec fn line_offsets(seg: LineSegment, k: int) -> (int, int) {
    let a = abs_diff(seg.x0, seg.x1);
    let b = abs_diff(seg.y0, seg.y1);
    if a >= b {
        (k, minor_offset(a, b, k))
    } else {
        (minor_offset(b, a, k), k)
    }
}

/// The pixel `k` steps from the start of the line.
pub open spec fn line_point(seg: LineSegment, k: int) -> (int, int) {
    let (i, j) = line_offsets(seg, k);
    (
        if seg.x0 < seg.x1 { seg.x0 + i } else { seg.x0 - i },
        if seg.y0 < seg.y1 { seg.y0 + j } else { seg.y0 - j },
    )
}

pub open spec fn in_tile(tile: TileRect, p: (int, int)) -> bool {
    tile.min_x <= p.0 < tile.max_x && tile.min_y <= p.1 < tile.max_y
}

/// One pixel of a walked line: its position, its step from the start of the
/// line and the line's total number of steps.
#[derive(Debug, Clone, Copy, PartialEq, Eq, Structural)]
pub struct LinePixel {
    pub x: usize,
    pub y: usize,
    pub step_index: i32,
    pub steps: i32,
}

pub open spec fn line_pixel(seg: LineSegment, k: int) -> LinePixel {
    let p = line_point(seg, k);
    LinePixel { x: p.0 as usize, y: p.1 as usize, step_index: k as i32, steps: line_steps(seg) as i32 }
}

/// The pixels of the line from step `k` on that lie in the tile, in walking
/// order.
pub open spec fn line_pixels_from(seg: LineSegment, tile: TileRect, k: int) -> Seq<LinePixel>
    decreases line_steps(seg) + 1 - k,
{
    if k < 0 || k > line_steps(seg) {
        Seq::empty()
    } else if in_tile(tile, line_point(seg, k)) {
        seq![line_pixel(seg, k)] + line_pixels_from(seg, tile, k + 1)
    } else {
        line_pixels_from(seg, tile, k + 1)
    }
}

/// The pixels of the whole line that lie in the tile, in walking order.
pub open spec fn line_pixels(seg: LineSegment, tile: TileRect) -> Seq<LinePixel> {
    line_pixels_from(seg, tile, 0)
}

/// Rounding characterisation of `minor_offset`.
proof fn lemma_minor_offset_bounds(major: int, minor: int, k: int)
    requires
        major > 0,
        minor >= 0,
        k >= 0,
    ensures
        2 * major * minor_offset(major, minor, k) <= 2 * minor * k + major,
        2 * minor * k + major < 2 * major * (minor_offset(major, minor, k) + 1),
        minor_offset(major, minor, k) >= 0,
{
    let x = 2 * minor * k + major;
    let d = 2 * major;
    assert(minor * k >= 0) by (nonlinear_arith)
        requires
            minor >= 0,
            k >= 0,
    ;
    lemma_fundamental_div_mod(x, d);
    lemma_mod_pos_bound(x, d);
    let q = x / d;
    assert(q >= 0) by (nonlinear_arith)
        requires
            x == d * q + x % d,
            0 <= x % d < d,
            x >= 0,
            d > 0,
    ;
    assert(d * q <= x && x < d * (q + 1)) by (nonlinear_arith)
        requires
            x == d * q + x % d,
            0 <= x % d < d,
    ;
}

/// The value of `minor_offset` is the only integer inside the rounding bounds.
proof fn lemma_minor_offset_unique(major: int, minor: int, k: int, j: int)
    requires
        major > 0,
        2 * major * j <= 2 * minor * k + major,
        2 * minor * k + major < 2 * major * (j + 1),
    ensures
        minor_offset(major, minor, k) == j,
{
    let x = 2 * minor * k + major;
    let d = 2 * major;
    let r = x - j * d;
    assert(0 <= r < d) by (nonlinear_arith)
        requires
            d * j <= x,
            x < d * (j + 1),
            r == x - j * d,
    ;
    lemma_fundamental_div_mod_converse(x, d, j, r);
}

/// Along a line whose major axis spans `major >= minor` pixels, the minor
/// offset stays within `[0, minor]` and reaches `minor` at the last step.
proof fn lemma_minor_offset_range(major: int, minor: int, k: int)
    requires
        0 <= minor <= major,
        0 <= k <= major,
    ensures
        0 <= minor_offset(major, minor, k) <= minor,
        k == major ==> minor_offset(major, minor, k) == minor,
{
    if major > 0 {
        lemma_minor_offset_bounds(major, minor, k);
        let j = minor_offset(major, minor, k);
        assert(j <= minor) by (nonlinear_arith)
            requires
                2 * major * j <= 2 * minor * k + major,
                k <= major,
                minor >= 0,
                major > 0,
        ;
        if k == major {
            assert(2 * major * minor <= 2 * minor * k + major
                && 2 * minor * k + major < 2 * major * (minor + 1)) by (nonlinear_arith)
                requires
                    k == major,
                    major > 0,
            ;
            lemma_minor_offset_unique(major, minor, k, minor);
        }
    }
}

/// One Bresenham step along a line whose major axis spans `major >= minor`
/// pixels, from step `k` with minor offset `j` and error term
/// `e = major * (j + 1) - minor * (k + 1)`: the major axis always advances,
/// the minor axis advances exactly when `2 * e <= major`, and afterwards the
/// minor offset is again the rounded ideal one.
proof fn lemma_major_step(major: int, minor: int, k: int)
    requires
        0 <= minor <= major,
        0 <= k < major,
    ensures
        ({
            let j = minor_offset(major, minor, k);
            let e = major * (j + 1) - minor * (k + 1);
            &&& 2 * e >= -minor
            &&& -2 * minor <= e <= 2 * major
            &&& 2 * e <= major ==> minor_offset(major, minor, k + 1) == j + 1
            &&& !(2 * e <= major) ==> minor_offset(major, minor, k + 1) == j
        }),
{
    lemma_minor_offset_bounds(major, minor, k);
    let j = minor_offset(major, minor, k);
    let e = major * (j + 1) - minor * (k + 1);
    assert(2 * e >= -minor && -2 * minor <= e <= 2 * major) by (nonlinear_arith)
        requires
            2 * major * j <= 2 * minor * k + major,
            2 * minor * k + major < 2 * major * (j + 1),
            e == major * (j + 1) - minor * (k + 1),
            0 <= minor <= major,
            j >= 0,
            k >= 0,
    ;
    if 2 * e <= major {
        assert(2 * major * (j + 1) <= 2 * minor * (k + 1) + major
            && 2 * minor * (k + 1) + major < 2 * major * (j + 2)) by (nonlinear_arith)
            requires
                2 * e <= major,
                e == major * (j + 1) - minor * (k + 1),
                2 * minor * k + major < 2 * major * (j + 1),
                minor <= major,
        ;
        lemma_minor_offset_unique(major, minor, k + 1, j + 1);
    } else {
        assert(2 * major * j <= 2 * minor * (k + 1) + major
            && 2 * minor * (k + 1) + major < 2 * major * (j + 1)) by (nonlinear_arith)
            requires
                2 * e > major,
                e == major * (j + 1) - minor * (k + 1),
                2 * major * j <= 2 * minor * k + major,
                minor >= 0,
        ;
        lemma_minor_offset_unique(major, minor, k + 1, j);
    }
}

/// Offsets stay inside the line's bounding box, and reach the far corner only
/// at the last step.
proof fn lemma_line_offsets_range(seg: LineSegment, k: int)
    requires
        0 <= k <= line_steps(seg),
    ensures
        ({
            let a = abs_diff(seg.x0, seg.x1);
            let b = abs_diff(seg.y0, seg.y1);
            let (i, j) = line_offsets(seg, k);
            &&& 0 <= i <= a
            &&& 0 <= j <= b
            &&& (i == a && j == b) <==> k == line_steps(seg)
        }),
{
    let a = abs_diff(seg.x0, seg.x1);
    let b = abs_diff(seg.y0, seg.y1);
    if a >= b {
        lemma_minor_offset_range(a, b, k);
    } else {
        lemma_minor_offset_range(b, a, k);
    }
}

/// One step of the walk in terms of the error term
/// `e = a * (j + 1) - b * (i + 1)`, where `a` and `b` are the spans of the line
/// along x and y and `(i, j)` are the offsets reached so far: x advances
/// exactly when `2 * e >= -b`, y exactly when `2 * e <= a`.
proof fn lemma_line_step(seg: LineSegment, k: int)
    requires
        0 <= k < line_steps(seg),
    ensures
        ({
            let a = abs_diff(seg.x0, seg.x1);
            let b = abs_diff(seg.y0, seg.y1);
            let (i, j) = line_offsets(seg, k);
            let (i2, j2) = line_offsets(seg, k + 1);
            let e = a * (j + 1) - b * (i + 1);
            &&& -2 * b <= e <= 2 * a
            &&& i2 == (if 2 * e >= -b { i + 1 } else { i })
            &&& j2 == (if 2 * e <= a { j + 1 } else { j })
        }),
{
    let a = abs_diff(seg.x0, seg.x1);
    let b = abs_diff(seg.y0, seg.y1);
    if a >= b {
        lemma_major_step(a, b, k);
    } else {
        lemma_major_step(b, a, k);
        let i = minor_offset(b, a, k);
        assert(a * (k + 1) - b * (i + 1) == -(b * (i + 1) - a * (k + 1)));
    }
}

/// A line whose bounding box misses the tile has no pixel in it.
proof fn lemma_line_pixels_outside(seg: LineSegment, tile: TileRect, k: int)
    requires
        0 <= k,
        max_int(seg.x0, seg.x1) < tile.min_x || min_int(seg.x0, seg.x1) >= tile.max_x
            || max_int(seg.y0, seg.y1) < tile.min_y || min_int(seg.y0, seg.y1) >= tile.max_y,
    ensures
        line_pixels_from(seg, tile, k) == Seq::<LinePixel>::empty(),
    decreases line_steps(seg) + 1 - k,
{
    if k <= line_steps(seg) {
        lemma_line_offsets_range(seg, k);
        lemma_line_pixels_outside(seg, tile, k + 1);
    }
}

pub open spec fn screen_coord(raw: int, extent: int) -> int {
    let hi = min_int(extent - 1, i32::MAX as int);
    if raw < 0 { 0 } else if raw > hi { hi } else { raw }
}

pub open spec fn tile_start(t: int) -> int {
    min_int(t, i32::MAX as int)
}

pub open spec fn tile_end(t: int, extent: int) -> int {
    min_int(tile_start(t) + min_int(extent, i32::MAX as int), i32::MAX as int)
}

/// An iterator over the pixels of a line (Bresenham's algorithm) that lie in
/// a tile. Its view is the sequence of pixels still to come.
pub struct LineWalk {
    x0: i32,
    y0: i32,
    x1: i32,
    y1: i32,
    x: i32,
    y: i32,
    dx: i32,
    dy: i32,
    sx: i32,
    sy: i32,
    err: i64,
    step_index: i64,
    steps: i32,
    tile_x: i32,
    tile_y: i32,
    tile_max_x: i32,
    tile_max_y: i32,
    done: bool,
}

impl LineWalk {
    pub closed spec fn segment(&self) -> LineSegment {
        LineSegment { x0: self.x0 as int, y0: self.y0 as int, x1: self.x1 as int, y1: self.y1 as int }
    }

    pub closed spec fn tile(&self) -> TileRect {
        TileRect {
            min_x: self.tile_x as int,
            min_y: self.tile_y as int,
            max_x: self.tile_max_x as int,
            max_y: self.tile_max_y as int,
        }
    }

    /// The walk's internal state agrees with its line.
    pub closed spec fn wf(&self) -> bool {
        let seg = self.segment();
        let a = abs_diff(seg.x0, seg.x1);
        let b = abs_diff(seg.y0, seg.y1);
        &&& 0 <= self.x0 && 0 <= self.y0 && 0 <= self.x1 && 0 <= self.y1
        &&& self.dx == a
        &&& self.dy == -b
        &&& self.sx == (if self.x0 < self.x1 { 1i32 } else { -1i32 })
        &&& self.sy == (if self.y0 < self.y1 { 1i32 } else { -1i32 })
        &&& self.steps == line_steps(seg)
        &&& !self.done ==> {
            &&& 0 <= self.step_index <= self.steps
            &&& (self.x as int, self.y as int) == line_point(seg, self.step_index as int)
            &&& self.err == a * (line_offsets(seg, self.step_index as int).1 + 1) - b * (
            line_offsets(seg, self.step_index as int).0 + 1)
        }
    }
}

impl View for LineWalk {
    type V = Seq<LinePixel>;

    closed spec fn view(&self) -> Seq<LinePixel> {
        if self.done {
            Seq::empty()
        } else {
            line_pixels_from(self.segment(), self.tile(), self.step_index as int)
        }
    }
}

fn clamp_coord(raw: i32, hi: i32) -> (r: i32)
    requires
        hi >= 0,
    ensures
        r == (if raw < 0 { 0 } else if raw > hi { hi as int } else { raw as int }),
{
    if raw < 0 {
        0
    } else if raw > hi {
        hi
    } else {
        raw
    }
}

fn clamp_to_i32(v: usize) -> (r: i32)
    ensures
        r == min_int(v as int, i32::MAX as int),
{
    if v > i32::MAX as usize {
        i32::MAX
    } else {
        v as i32
    }
}

impl LineWalk {
    /// Starts walking the line between the pixels `(x0, y0)` and `(x1, y1)`
    /// of a `width x height` screen, clamped onto the screen, and keeps the
    /// pixels inside `tile_bounds = [x, y, width, height]`. An empty screen or
    /// tile yields nothing.
    #[verifier::spinoff_prover]
    pub fn new(
        x0: i32,
        y0: i32,
        x1: i32,
        y1: i32,
        tile_bounds: [usize; 4],
        width: usize,
        height: usize,
    ) -> (r: Self)
        ensures
            r.wf(),
            width == 0 || height == 0 || tile_bounds[2] == 0 || tile_bounds[3] == 0 ==> r@
                == Seq::<LinePixel>::empty(),
            !(width == 0 || height == 0 || tile_bounds[2] == 0 || tile_bounds[3] == 0) ==> r@
                == line_pixels(
                LineSegment {
                    x0: screen_coord(x0 as int, width as int),
                    y0: screen_coord(y0 as int, height as int),
                    x1: screen_coord(x1 as int, width as int),
                    y1: screen_coord(y1 as int, height as int),
                },
                TileRect {
                    min_x: tile_start(tile_bounds[0] as int),
                    min_y: tile_start(tile_bounds[1] as int),
                    max_x: tile_end(tile_bounds[0] as int, tile_bounds[2] as int),
                    max_y: tile_end(tile_bounds[1] as int, tile_bounds[3] as int),
                },
            ),
    {
        if width == 0 || height == 0 || tile_bounds[2] == 0 || tile_bounds[3] == 0 {
            return LineWalk {
                x0: 0,
                y0: 0,
                x1: 0,
                y1: 0,
                x: 0,
                y: 0,
                dx: 0,
                dy: 0,
                sx: -1,
                sy: -1,
                err: 0,
                step_index: 0,
                steps: 0,
                tile_x: 0,
                tile_y: 0,
                tile_max_x: 0,
                tile_max_y: 0,
                done: true,
            };
        }
        let max_screen_x = clamp_to_i32(width - 1);
        let max_screen_y = clamp_to_i32(height - 1);
        let cx0 = clamp_coord(x0, max_screen_x);
        let cy0 = clamp_coord(y0, max_screen_y);
        let cx1 = clamp_coord(x1, max_screen_x);
        let cy1 = clamp_coord(y1, max_screen_y);

        let tile_x = clamp_to_i32(tile_bounds[0]);
        let tile_y = clamp_to_i32(tile_bounds[1]);
        let tile_w = clamp_to_i32(tile_bounds[2]);
        let tile_h = clamp_to_i32(tile_bounds[3]);
        let tile_max_x: i32 = if tile_x as i64 + tile_w as i64 > i32::MAX as i64 {
            i32::MAX
        } else {
            tile_x + tile_w
        };
        let tile_max_y: i32 = if tile_y as i64 + tile_h as i64 > i32::MAX as i64 {
            i32::MAX
        } else {
            tile_y + tile_h
        };

        let line_min_x = if cx0 <= cx1 { cx0 } else { cx1 };
        let line_max_x = if cx0 <= cx1 { cx1 } else { cx0 };
        let line_min_y = if cy0 <= cy1 { cy0 } else { cy1 };
        let line_max_y = if cy0 <= cy1 { cy1 } else { cy0 };

        let done = line_max_x < tile_x || line_min_x >= tile_max_x || line_max_y < tile_y
            || line_min_y >= tile_max_y;

        let dx: i32 = line_max_x - line_min_x;
        let dy: i32 = -(line_max_y - line_min_y);
        let sx: i32 = if cx0 < cx1 { 1 } else { -1 };
        let sy: i32 = if cy0 < cy1 { 1 } else { -1 };
        let steps: i32 = if dx >= -dy { dx } else { -dy };

        let r = LineWalk {
            x0: cx0,
            y0: cy0,
            x1: cx1,
            y1: cy1,
            x: cx0,
            y: cy0,
            dx,
            dy,
            sx,
            sy,
            err: dx as i64 + dy as i64,
            step_index: 0,
            steps,
            tile_x,
            tile_y,
            tile_max_x,
            tile_max_y,
            done,
        };
        proof {
            let seg = r.segment();
            lemma_line_offsets_range(seg, 0);
            let a = abs_diff(seg.x0, seg.x1);
            let b = abs_diff(seg.y0, seg.y1);
            if a >= b {
                if a > 0 {
                    lemma_minor_offset_unique(a, b, 0, 0);
                }
            } else {
                lemma_minor_offset_unique(b, a, 0, 0);
            }
            if done {
                lemma_line_pixels_outside(seg, r.tile(), 0);
            }
        }
        r
    }

    /// The next pixel of the line inside the tile, if any.
    pub fn next(&mut self) -> (r: Option<LinePixel>)
        requires
            old(self).wf(),
        ensures
            final(self).wf(),
            old(self)@.len() == 0 ==> r == None::<LinePixel> && final(self)@ == old(self)@,
            old(self)@.len() > 0 ==> r == Some(old(self)@[0]) && final(self)@ == old(
                self,
            )@.drop_first(),
    {
        let ghost pending = self@;
        while !self.done
            invariant
                self.wf(),
                self@ == pending,
                pending == old(self)@,
            decreases (if self.done { 0 } else { self.steps + 1 - self.step_index }),
        {
            let ghost seg = self.segment();
            let ghost k = self.step_index as int;
            let x = self.x;
            let y = self.y;
            let step_index = self.step_index;
            proof {
                lemma_line_offsets_range(seg, k);
            }
            if x == self.x1 && y == self.y1 {
                self.done = true;
            } else {
                proof {
                    lemma_line_step(seg, k);
                    lemma_line_offsets_range(seg, k + 1);
                }
                let e2: i64 = self.err * 2;
                if e2 >= self.dy as i64 {
                    self.err = self.err + self.dy as i64;
                    self.x = self.x + self.sx;
                }
                if e2 <= self.dx as i64 {
                    self.err = self.err + self.dx as i64;
                    self.y = self.y + self.sy;
                }
            }
            self.step_index = self.step_index + 1;
            proof {
                if !self.done {
                    let a = abs_diff(seg.x0, seg.x1);
                    let b = abs_diff(seg.y0, seg.y1);
                    let (i, j) = line_offsets(seg, k);
                    let (i2, j2) = line_offsets(seg, k + 1);
                    assert(self.err == a * (j2 + 1) - b * (i2 + 1)) by (nonlinear_arith)
                        requires
                            self.err == a * (j + 1) - b * (i + 1) + (if i2 == i + 1 { -b } else { 0 }) + (
                            if j2 == j + 1 { a } else { 0 }),
                            i2 == i || i2 == i + 1,
                            j2 == j || j2 == j + 1,
                    ;
                    assert((self.x as int, self.y as int) == line_point(seg, k + 1));
                }
                let tile = self.tile();
                assert(line_pixels_from(seg, tile, line_steps(seg) + 1) == Seq::<LinePixel>::empty());
            }
            if x < self.tile_x || x >= self.tile_max_x || y < self.tile_y || y >= self.tile_max_y {
                continue;
            }
            proof {
                let tile = self.tile();
                assert(in_tile(tile, line_point(seg, k)));
                assert(pending == seq![line_pixel(seg, k)] + line_pixels_from(seg, tile, k + 1));
            }
            return Some(
                LinePixel { x: x as usize, y: y as usize, step_index: step_index as i32, steps: self.steps },
            );
        }
        None
    }
}

// ---------------------------------------------------------------------------
// Triangle set-up decisions
// ---------------------------------------------------------------------------

/// The rasterizer for line primitives; it has no state.
pub struct LineRasterizer;

impl LineRasterizer {
    /// Lines have no faces: the winding and culling settings are ignored.
    pub fn new(front_face: FrontFace, cull_mode: Option<Face>) -> (r: Self) {
        let _ = front_face;
        let _ = cull_mode;
        LineRasterizer
    }
}

/// The sign of a triangle's signed screen-space area (its edge function),
/// with `Undefined` for an area that is not a number.
#[derive(Debug, Clone, Copy, PartialEq, Eq, Structural)]
pub enum AreaSign {
    Positive,
    Negative,
    Zero,
    Undefined,
}

/// On which sides of the clip volume a clip-space vertex lies:
/// `left` is `x < -w`, `right` is `x > w`, `bottom` is `y < -w`, `top` is
/// `y > w`, `near` is `z < -w` and `far` is `z > w`.
#[derive(Debug, Clone, Copy, PartialEq, Eq, Structural)]
pub struct ClipOutcode {
    pub left: bool,
    pub right: bool,
    pub bottom: bool,
    pub top: bool,
    pub near: bool,
    pub far: bool,
}

/// A triangle is entirely outside the clip volume when all three vertices
/// lie beyond one and the same clip plane.
pub open spec fn outside_one_plane(o0: ClipOutcode, o1: ClipOutcode, o2: ClipOutcode) -> bool {
    ||| o0.near && o1.near && o2.near
    ||| o0.far && o1.far && o2.far
    ||| o0.left && o1.left && o2.left
    ||| o0.right && o1.right && o2.right
    ||| o0.bottom && o1.bottom && o2.bottom
    ||| o0.top && o1.top && o2.top
}

/// Whether a triangle with area of sign `sign` shows its front face under the
/// winding convention `front_face`.
pub open spec fn faces_front(front_face: FrontFace, sign: AreaSign) -> bool {
    match front_face {
        FrontFace::Ccw => sign == AreaSign::Positive,
        FrontFace::Cw => sign == AreaSign::Negative,
    }
}

/// Whether a triangle with area of sign `sign` is discarded: degenerate
/// triangles always are, others when the face they show is the culled one.
pub open spec fn culls(front_face: FrontFace, cull_mode: Option<Face>, sign: AreaSign) -> bool {
    sign == AreaSign::Zero || match cull_mode {
        Some(Face::Front) => faces_front(front_face, sign),
        Some(Face::Back) => !faces_front(front_face, sign),
        None => false,
    }
}

/// The rasterizer for triangle primitives.
pub struct TriangleRasterizer {
    pub(crate) front_face: FrontFace,
    pub(crate) cull_mode: Option<Face>,
}

impl TriangleRasterizer {
    pub closed spec fn spec_front_face(&self) -> FrontFace {
        self.front_face
    }

    pub closed spec fn spec_cull_mode(&self) -> Option<Face> {
        self.cull_mode
    }

    pub fn new(front_face: FrontFace, cull_mode: Option<Face>) -> (r: Self)
        ensures
            r.spec_front_face() == front_face,
            r.spec_cull_mode() == cull_mode,
    {
        TriangleRasterizer { front_face, cull_mode }
    }

    /// Whether a triangle whose area has sign `sign` faces the viewer.
    pub fn is_front_face(&self, sign: AreaSign) -> (r: bool)
        ensures
            r == faces_front(self.spec_front_face(), sign),
    {
        match self.front_face {
            FrontFace::Ccw => sign == AreaSign::Positive,
            FrontFace::Cw => sign == AreaSign::Negative,
        }
    }

    /// Whether a triangle whose area has sign `sign` produces no fragments.
    pub fn should_cull(&self, sign: AreaSign) -> (r: bool)
        ensures
            r == culls(self.spec_front_face(), self.spec_cull_mode(), sign),
    {
        let is_front_face = self.is_front_face(sign);
        sign == AreaSign::Zero || match self.cull_mode {
            Some(Face::Front) => is_front_face,
            Some(Face::Back) => !is_front_face,
            None => false,
        }
    }

    /// Whether a triangle lies entirely beyond one clip plane, given the
    /// outcodes of its vertices.
    pub fn should_cull_triangle(o0: ClipOutcode, o1: ClipOutcode, o2: ClipOutcode) -> (r: bool)
        ensures
            r == outside_one_plane(o0, o1, o2),
    {
        if o0.near && o1.near && o2.near {
            return true;
        }
        if o0.far && o1.far && o2.far {
            return true;
        }
        if o0.left && o1.left && o2.left {
            return true;
        }
        if o0.right && o1.right && o2.right {
            return true;
        }
        if o0.bottom && o1.bottom && o2.bottom {
            return true;
        }
        if o0.top && o1.top && o2.top {
            return true;
        }
        false
    }

    /// Narrows a triangle's pixel bounding box `[min_x, max_x, min_y, max_y]`
    /// to the tile `[x, y, width, height]`; the pixels to test are then
    /// `min_x..max_x` by `min_y..max_y`. The tile's coordinates are taken as
    /// `i32` by truncation.
    pub fn clip_bounds_to_tile(bounds: [i32; 4], tile_bounds: [usize; 4]) -> (r: [i32; 4])
        requires
            tile_bounds[0] + tile_bounds[2] <= usize::MAX,
            tile_bounds[1] + tile_bounds[3] <= usize::MAX,
        ensures
            r[0] == max_int(bounds[0] as int, (tile_bounds[0] as i32) as int),
            r[1] == min_int(bounds[1] as int, ((tile_bounds[0] + tile_bounds[2]) as usize as i32) as int),
            r[2] == max_int(bounds[2] as int, (tile_bounds[1] as i32) as int),
            r[3] == min_int(bounds[3] as int, ((tile_bounds[1] + tile_bounds[3]) as usize as i32) as int),
    {
        let tile_x = tile_bounds[0] as i32;
        let tile_end_x = (tile_bounds[0] + tile_bounds[2]) as i32;
        let tile_y = tile_bounds[1] as i32;
        let tile_end_y = (tile_bounds[1] + tile_bounds[3]) as i32;
        [
            if bounds[0] >= tile_x { bounds[0] } else { tile_x },
            if bounds[1] <= tile_end_x { bounds[1] } else { tile_end_x },
            if bounds[2] >= tile_y { bounds[2] } else { tile_y },
            if bounds[3] <= tile_end_y { bounds[3] } else { tile_end_y },
        ]
    }
}

// ---------------------------------------------------------------------------
// Laws
// ---------------------------------------------------------------------------

/// Without a cull mode, exactly the degenerate (zero-area) triangles are
/// discarded.
pub proof fn law_no_cull_mode_keeps_all_but_degenerate(front_face: FrontFace, sign: AreaSign)
    ensures
        culls(front_face, None, sign) == (sign == AreaSign::Zero),
{
}

/// On a non-degenerate triangle, front-face culling and back-face culling
/// make opposite decisions.
pub proof fn law_front_and_back_culling_complementary(front_face: FrontFace, sign: AreaSign)
    requires
        sign != AreaSign::Zero,
    ensures
        culls(front_face, Some(Face::Front), sign) != culls(front_face, Some(Face::Back), sign),
{
}

/// Switching the winding convention switches which non-degenerate triangles
/// face the viewer.
pub proof fn law_winding_convention_flips_facing(sign: AreaSign)
    requires
        sign == AreaSign::Positive || sign == AreaSign::Negative,
    ensures
        faces_front(FrontFace::Ccw, sign) != faces_front(FrontFace::Cw, sign),
{
}

/// The winding conventions: under `Ccw` the front faces are exactly the
/// triangles of positive area (counter-clockwise on screen), under `Cw`
/// exactly those of negative area.
pub proof fn law_front_faces_follow_the_winding_convention(sign: AreaSign)
    ensures
        faces_front(FrontFace::Ccw, sign) <==> sign == AreaSign::Positive,
        faces_front(FrontFace::Cw, sign) <==> sign == AreaSign::Negative,
{
}

/// Culling follows the winding convention: under `Cw` a triangle is culled
/// exactly when its mirror image (the opposite non-zero sign) is culled under
/// `Ccw`, whatever the cull mode.
pub proof fn law_culling_mirrors_with_the_winding_convention(cull_mode: Option<Face>)
    ensures
        culls(FrontFace::Cw, cull_mode, AreaSign::Negative) == culls(
            FrontFace::Ccw,
            cull_mode,
            AreaSign::Positive,
        ),
        culls(FrontFace::Cw, cull_mode, AreaSign::Positive) == culls(
            FrontFace::Ccw,
            cull_mode,
            AreaSign::Negative,
        ),
{
}

/// Back-face culling never discards a triangle that faces the viewer under
/// the rasterizer's own convention, and front-face culling always does; a
/// non-degenerate triangle that faces away is discarded by back-face culling
/// and kept by front-face culling.
pub proof fn law_cull_mode_decides_by_facing(front_face: FrontFace, sign: AreaSign)
    ensures
        faces_front(front_face, sign) ==> !culls(front_face, Some(Face::Back), sign) && culls(
            front_face,
            Some(Face::Front),
            sign,
        ),
        !faces_front(front_face, sign) && sign != AreaSign::Zero ==> culls(
            front_face,
            Some(Face::Back),
            sign,
        ) && !culls(front_face, Some(Face::Front), sign),
{
}

/// A vertex whose outcode has no flag set lies inside the clip volume.
pub open spec fn in_clip_volume(o: ClipOutcode) -> bool {
    !o.left && !o.right && !o.bottom && !o.top && !o.near && !o.far
}

/// The planes that all three outcodes lie beyond: the flag-wise "and".
pub open spec fn common_planes(o0: ClipOutcode, o1: ClipOutcode, o2: ClipOutcode) -> ClipOutcode {
    ClipOutcode {
        left: o0.left && o1.left && o2.left,
        right: o0.right && o1.right && o2.right,
        bottom: o0.bottom && o1.bottom && o2.bottom,
        top: o0.top && o1.top && o2.top,
        near: o0.near && o1.near && o2.near,
        far: o0.far && o1.far && o2.far,
    }
}

/// Frustum culling discards a triangle exactly when the outcodes of its
/// three vertices share a plane (their flag-wise "and" is not empty); in
/// particular a triangle with a vertex inside the clip volume is always kept,
/// and the decision does not depend on the order of the vertices.
pub proof fn law_frustum_culling_needs_a_shared_plane(
    o0: ClipOutcode,
    o1: ClipOutcode,
    o2: ClipOutcode,
)
    ensures
        outside_one_plane(o0, o1, o2) <==> !in_clip_volume(common_planes(o0, o1, o2)),
        in_clip_volume(o0) || in_clip_volume(o1) || in_clip_volume(o2) ==> !outside_one_plane(
            o0,
            o1,
            o2,
        ),
        outside_one_plane(o0, o1, o2) == outside_one_plane(o1, o2, o0),
        outside_one_plane(o0, o1, o2) == outside_one_plane(o1, o0, o2),
{
}

/// The walk of a line starts at its first endpoint, ends at its second after
/// exactly `line_steps` steps, and every step moves to one of the eight
/// neighbouring pixels, advancing one pixel along the longer axis.
pub proof fn law_line_walk_is_connected(seg: LineSegment, k: int)
    requires
        0 <= k < line_steps(seg),
    ensures
        line_point(seg, 0) == (seg.x0, seg.y0),
        line_point(seg, line_steps(seg)) == (seg.x1, seg.y1),
        abs_diff(line_point(seg, k).0, line_point(seg, k + 1).0) <= 1,
        abs_diff(line_point(seg, k).1, line_point(seg, k + 1).1) <= 1,
        abs_diff(seg.x0, seg.x1) >= abs_diff(seg.y0, seg.y1) ==> abs_diff(
            line_point(seg, k).0,
            line_point(seg, k + 1).0,
        ) == 1,
        abs_diff(seg.x0, seg.x1) < abs_diff(seg.y0, seg.y1) ==> abs_diff(
            line_point(seg, k).1,
            line_point(seg, k + 1).1,
        ) == 1,
{
    let a = abs_diff(seg.x0, seg.x1);
    let b = abs_diff(seg.y0, seg.y1);
    lemma_line_offsets_range(seg, 0);
    lemma_line_offsets_range(seg, line_steps(seg));
    if a >= b {
        if a > 0 {
            lemma_minor_offset_unique(a, b, 0, 0);
        }
    } else {
        lemma_minor_offset_unique(b, a, 0, 0);
    }
    lemma_line_step(seg, k);
    lemma_line_offsets_range(seg, k);
    lemma_line_offsets_range(seg, k + 1);
}

/// Every pixel of a line lies within the bounding box of its endpoints.
pub proof fn law_line_stays_in_bounding_box(seg: LineSegment, k: int)
    requires
        0 <= k <= line_steps(seg),
    ensures
        min_int(seg.x0, seg.x1) <= line_point(seg, k).0 <= max_int(seg.x0, seg.x1),
        min_int(seg.y0, seg.y1) <= line_point(seg, k).1 <= max_int(seg.y0, seg.y1),
{
    lemma_line_offsets_range(seg, k);
}

} // verus!
