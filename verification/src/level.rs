//! The height-mapped hex grid of one tactical level.
//!
//! A [`Level`] owns the grid dimensions and one fixed-point height per cell,
//! stored row-major. Out-of-bounds queries answer a fixed sentinel height of
//! zero rather than failing. From the stored data the level derives its
//! world-space bounding box, diagonal extent and center cells, which the
//! camera framing consumes.

use vstd::prelude::*;

use crate::fixed::{div_trunc, div_trunc_i64, isqrt64, SCALE};
use crate::hex::{hex_to_world, world_x_of, world_z_of, Hex};
use crate::vec3::Vec3;

verus! {

/// Least element among the first `n` entries of `s`.
pub open spec fn prefix_min(s: Seq<i64>, n: int) -> int
    recommends
        1 <= n <= s.len(),
    decreases n,
{
    if n <= 1 {
        s[0] as int
    } else if (s[n - 1] as int) < prefix_min(s, n - 1) {
        s[n - 1] as int
    } else {
        prefix_min(s, n - 1)
    }
}

/// Greatest element among the first `n` entries of `s`.
pub open spec fn prefix_max(s: Seq<i64>, n: int) -> int
    recommends
        1 <= n <= s.len(),
    decreases n,
{
    if n <= 1 {
        s[0] as int
    } else if (s[n - 1] as int) > prefix_max(s, n - 1) {
        s[n - 1] as int
    } else {
        prefix_max(s, n - 1)
    }
}

/// `n` clipped from below to one; prefix folds always cover at least the
/// first element.
pub open spec fn at_least_one(n: int) -> int {
    if n < 1 {
        1
    } else {
        n
    }
}

/// The prefix minimum never exceeds the prefix maximum, and both stay inside
/// any bound that holds for every element of the prefix.
pub proof fn lemma_prefix_bounds(s: Seq<i64>, n: int, lo: int, hi: int)
    requires
        1 <= n <= s.len(),
        forall|i: int| 0 <= i < n ==> lo <= #[trigger] s[i] <= hi,
    ensures
        lo <= prefix_min(s, n) <= prefix_max(s, n) <= hi,
    decreases n,
{
    if n > 1 {
        lemma_prefix_bounds(s, n - 1, lo, hi);
    }
}

/// Shifting every element of the prefix by a constant shifts both folds by
/// the same constant.
pub proof fn lemma_prefix_translate(s: Seq<i64>, t: Seq<i64>, n: int, c: int)
    requires
        1 <= n <= s.len(),
        n <= t.len(),
        forall|i: int| 0 <= i < n ==> #[trigger] t[i] == s[i] + c,
    ensures
        prefix_min(t, n) == prefix_min(s, n) + c,
        prefix_max(t, n) == prefix_max(s, n) + c,
    decreases n,
{
    if n > 1 {
        lemma_prefix_translate(s, t, n - 1, c);
    }
}

/// Largest admissible magnitude of a stored cell height (1000 world units).
pub const HEIGHT_LIMIT: i64 = 1_000_000_000;

/// Largest admissible grid extent along either axis.
pub const MAX_EXTENT: i32 = 256;

/// A tactical level: a `width x height` hex grid with a fixed-point height
/// for every cell.
#[derive(Clone, Debug)]
pub struct Level {
    /// Human-readable name for this level.
    pub name: String,
    /// Width of the hex grid (number of columns).
    pub width: i32,
    /// Height of the hex grid (number of rows).
    pub height: i32,
    /// Height data for each hex position, stored row-major as
    /// `heights[row * width + col]`.
    pub heights: Vec<i64>,
}

/// Normalized grid position of index `i` along an axis of `d` cells, in fixed
/// point: `i / (d - 1)`, and zero when the axis has a single cell.
pub open spec fn norm_of(i: int, d: int) -> int {
    if d <= 1 {
        0
    } else {
        i * (SCALE as int) / (d - 1)
    }
}

/// Default fill for a procedurally built level: a diagonal gradient rising
/// from one world unit at the front-left corner to four at the back-right,
/// `1 + 3 * (q_norm + r_norm) / 2`.
pub open spec fn default_gradient(w: int, h: int, q: int, r: int) -> int {
    SCALE + 3 * ((norm_of(q, w) + norm_of(r, h)) / 2)
}

impl Level {
    /// Structural validity: positive bounded dimensions, one stored height
    /// per cell, every height of bounded magnitude.
    pub open spec fn wf(&self) -> bool {
        &&& 1 <= self.width <= MAX_EXTENT
        &&& 1 <= self.height <= MAX_EXTENT
        &&& self.heights@.len() == self.width * self.height
        &&& forall|i: int|
            0 <= i < self.heights@.len() ==> -HEIGHT_LIMIT <= #[trigger] self.heights@[i]
                <= HEIGHT_LIMIT
    }

    /// The stored height of cell `(q, r)`, and the sentinel `0` for
    /// out-of-bounds coordinates.
    pub open spec fn height_at(&self, q: int, r: int) -> int {
        if 0 <= q < self.width && 0 <= r < self.height {
            self.heights@[r * self.width + q] as int
        } else {
            0
        }
    }

    /// Create a new level of the given dimensions, filled with the default
    /// diagonal height gradient.
    pub fn new(name: String, width: i32, height: i32) -> (l: Level)
        requires
            1 <= width <= MAX_EXTENT,
            1 <= height <= MAX_EXTENT,
        ensures
            l.wf(),
            l.name == name,
            l.width == width,
            l.height == height,
            forall|q: int, r: int|
                0 <= q < width && 0 <= r < height ==> #[trigger] l.height_at(q, r)
                    == default_gradient(width as int, height as int, q, r),
    {
        let w: usize = width as usize;
        let h: usize = height as usize;
        let mut heights: Vec<i64> = Vec::new();
        let mut r: usize = 0;
        while r < h
            invariant
                r <= h,
                w == width,
                h == height,
                1 <= width <= MAX_EXTENT,
                1 <= height <= MAX_EXTENT,
                heights@.len() == r * w,
                forall|i: int|
                    0 <= i < heights@.len() ==> SCALE <= #[trigger] heights@[i] <= 4 * SCALE,
                forall|q0: int, r0: int|
                    0 <= q0 < w && 0 <= r0 < r ==> #[trigger] heights@[r0 * w + q0]
                        == default_gradient(width as int, height as int, q0, r0),
            decreases h - r,
        {
            let mut q: usize = 0;
            while q < w
                invariant
                    q <= w,
                    r < h,
                    w == width,
                    h == height,
                    1 <= width <= MAX_EXTENT,
                    1 <= height <= MAX_EXTENT,
                    heights@.len() == r * w + q,
                    forall|i: int|
                        0 <= i < heights@.len() ==> SCALE <= #[trigger] heights@[i] <= 4 * SCALE,
                    forall|q0: int, r0: int|
                        0 <= q0 < w && 0 <= r0 < r ==> #[trigger] heights@[r0 * w + q0]
                            == default_gradient(width as int, height as int, q0, r0),
                    forall|q0: int|
                        0 <= q0 < q ==> #[trigger] heights@[r * w + q0]
                            == default_gradient(width as int, height as int, q0, r as int),
                decreases w - q,
            {
                let q_norm: i64 = if width > 1 {
                    proof {
                        assert((q as int) * (SCALE as int) / ((width - 1) as int)
                            <= SCALE as int) by (nonlinear_arith)
                            requires
                                0 <= q as int <= width - 1,
                                width >= 2,
                        ;
                        assert((q as int) * (SCALE as int) / ((width - 1) as int)
                            >= 0) by (nonlinear_arith)
                            requires
                                0 <= q as int,
                                width >= 2,
                        ;
                    }
                    (q as i64) * SCALE / ((width - 1) as i64)
                } else {
                    0
                };
                let r_norm: i64 = if height > 1 {
                    proof {
                        assert((r as int) * (SCALE as int) / ((height - 1) as int)
                            <= SCALE as int) by (nonlinear_arith)
                            requires
                                0 <= r as int <= height - 1,
                                height >= 2,
                        ;
                        assert((r as int) * (SCALE as int) / ((height - 1) as int)
                            >= 0) by (nonlinear_arith)
                            requires
                                0 <= r as int,
                                height >= 2,
                        ;
                    }
                    (r as i64) * SCALE / ((height - 1) as i64)
                } else {
                    0
                };
                let hex_height: i64 = SCALE + 3 * ((q_norm + r_norm) / 2);
                assert(q_norm == norm_of(q as int, width as int));
                assert(r_norm == norm_of(r as int, height as int));
                heights.push(hex_height);
                proof {
                    assert forall|q0: int, r0: int|
                        #![trigger heights@[r0 * (w as int) + q0]]
                        0 <= q0 < w && 0 <= r0 < r implies r0 * (w as int) + q0 < r * (
                    w as int) by {
                        assert(r0 * (w as int) + q0 < r * (w as int)) by (nonlinear_arith)
                            requires
                                0 <= q0 < w,
                                0 <= r0 < r,
                        ;
                    }
                }
                q += 1;
            }
            proof {
                assert((r + 1) * (w as int) == r * (w as int) + (w as int)) by (nonlinear_arith);
            }
            r += 1;
        }
        proof {
            assert((h as int) * (w as int) == (w as int) * (h as int)) by (nonlinear_arith);
        }
        let l = Level { name, width, height, heights };
        proof {
            assert forall|q0: int, r0: int|
                0 <= q0 < width && 0 <= r0 < height implies #[trigger] l.height_at(q0, r0)
                == default_gradient(width as int, height as int, q0, r0) by {
                assert(0 <= r0 * (width as int) + q0 < (width as int) * (height as int))
                    by (nonlinear_arith)
                    requires
                        0 <= q0 < width,
                        0 <= r0 < height,
                ;
            }
        }
        l
    }

    /// The height at a specific hex coordinate; out-of-bounds coordinates
    /// answer the sentinel height `0`.
    pub fn get_height(&self, hex: Hex) -> (v: i64)
        requires
            self.wf(),
        ensures
            v == self.height_at(hex.x as int, hex.y as int),
    {
        if hex.x >= 0 && hex.x < self.width && hex.y >= 0 && hex.y < self.height {
            proof {
                assert(0 <= (hex.y as int) * (self.width as int) + (hex.x as int)
                    < self.heights@.len()) by (nonlinear_arith)
                    requires
                        0 <= hex.x < self.width,
                        0 <= hex.y < self.height,
                        self.heights@.len() == self.width * self.height,
                ;
                assert((hex.y as int) * (self.width as int) + (hex.x as int)
                    <= 0x1_0000) by (nonlinear_arith)
                    requires
                        0 <= hex.x < self.width <= MAX_EXTENT,
                        0 <= hex.y < self.height <= MAX_EXTENT,
                ;
            }
            self.heights[(hex.y as usize) * (self.width as usize) + (hex.x as usize)]
        } else {
            0
        }
    }

    /// Every grid cell of this level, each exactly once, column by column.
    pub fn get_hex_grid(&self) -> (v: Vec<Hex>)
        requires
            self.wf(),
        ensures
            v@.len() == self.width * self.height,
            forall|i: int|
                0 <= i < v@.len() ==> {
                    &&& 0 <= #[trigger] v@[i].x < self.width
                    &&& 0 <= v@[i].y < self.height
                    &&& (v@[i].x as int) * (self.height as int) + (v@[i].y as int) == i
                },
            forall|i: int, j: int| 0 <= i < j < v@.len() ==> #[trigger] v@[i] != #[trigger] v@[j],
    {
        let mut v: Vec<Hex> = Vec::new();
        let w = self.width;
        let h = self.height;
        let mut q: i32 = 0;
        while q < w
            invariant
                0 <= q <= w,
                1 <= w <= MAX_EXTENT,
                1 <= h <= MAX_EXTENT,
                v@.len() == q * h,
                forall|i: int|
                    0 <= i < v@.len() ==> {
                        &&& 0 <= #[trigger] v@[i].x < w
                        &&& 0 <= v@[i].y < h
                        &&& (v@[i].x as int) * (h as int) + (v@[i].y as int) == i
                    },
            decreases w - q,
        {
            let mut r: i32 = 0;
            while r < h
                invariant
                    0 <= q < w,
                    0 <= r <= h,
                    1 <= w <= MAX_EXTENT,
                    1 <= h <= MAX_EXTENT,
                    v@.len() == q * h + r,
                    forall|i: int|
                        0 <= i < v@.len() ==> {
                            &&& 0 <= #[trigger] v@[i].x < w
                            &&& 0 <= v@[i].y < h
                            &&& (v@[i].x as int) * (h as int) + (v@[i].y as int) == i
                        },
                decreases h - r,
            {
                v.push(Hex::new(q, r));
                r += 1;
            }
            proof {
                assert((q + 1) * (h as int) == q * (h as int) + (h as int)) by (nonlinear_arith);
            }
            q += 1;
        }
        proof {
            assert((w as int) * (h as int) == self.width * self.height);
            assert forall|i: int, j: int| 0 <= i < j < v@.len() implies #[trigger] v@[i]
                != #[trigger] v@[j] by {
                if v@[i] == v@[j] {
                    assert((v@[i].x as int) * (h as int) + (v@[i].y as int) == i);
                    assert((v@[j].x as int) * (h as int) + (v@[j].y as int) == j);
                }
            }
        }
        v
    }

    /// The world-space bounding box of this level: componentwise least and
    /// greatest coordinates over every cell's center position, whose `y` is
    /// the cell's height.
    ///
    /// The planar components are pinned by the projection's monotonicity:
    /// the box spans from the cell `(0, 0)` to the cell
    /// `(width - 1, height - 1)` in `x` and `z`, and from the least to the
    /// greatest stored height in `y`.
    pub fn get_world_bounds(&self) -> (b: (Vec3, Vec3))
        requires
            self.wf(),
        ensures
            b.0.x == 0,
            b.0.z == 0,
            b.1.x == world_x_of(self.width - 1, self.height - 1),
            b.1.z == world_z_of(self.height - 1),
            b.0.y == prefix_min(self.heights@, self.heights@.len() as int),
            b.1.y == prefix_max(self.heights@, self.heights@.len() as int),
    {
        let w = self.width;
        let h = self.height;
        proof {
            assert(self.heights@.len() >= 1) by (nonlinear_arith)
                requires
                    self.heights@.len() == self.width * self.height,
                    self.width >= 1,
                    self.height >= 1,
            ;
        }
        let first: i64 = self.heights[0];
        let mut min_x: i64 = 0;
        let mut max_x: i64 = 0;
        let mut min_z: i64 = 0;
        let mut max_z: i64 = 0;
        let mut min_y: i64 = first;
        let mut max_y: i64 = first;
        let mut r: i32 = 0;
        while r < h
            invariant
                self.wf(),
                w == self.width,
                h == self.height,
                0 <= r <= h,
                min_x == 0,
                min_z == 0,
                0 <= max_x <= world_x_of(w - 1, h - 1),
                0 <= max_z <= world_z_of(h - 1),
                forall|a: int, b0: int|
                    0 <= a < w && 0 <= b0 < r ==> #[trigger] world_x_of(a, b0) <= max_x,
                forall|b0: int| 0 <= b0 < r ==> #[trigger] world_z_of(b0) <= max_z,
                min_y == prefix_min(self.heights@, at_least_one(r * w)),
                max_y == prefix_max(self.heights@, at_least_one(r * w)),
            decreases h - r,
        {
            let mut q: i32 = 0;
            while q < w
                invariant
                    self.wf(),
                    w == self.width,
                    h == self.height,
                    0 <= r < h,
                    0 <= q <= w,
                    min_x == 0,
                    min_z == 0,
                    0 <= max_x <= world_x_of(w - 1, h - 1),
                    0 <= max_z <= world_z_of(h - 1),
                    forall|a: int, b0: int|
                        0 <= a < w && 0 <= b0 < r ==> #[trigger] world_x_of(a, b0) <= max_x,
                    forall|a: int| 0 <= a < q ==> #[trigger] world_x_of(a, r as int) <= max_x,
                    forall|b0: int| 0 <= b0 < r ==> #[trigger] world_z_of(b0) <= max_z,
                    q > 0 ==> world_z_of(r as int) <= max_z,
                    min_y == prefix_min(self.heights@, at_least_one(r * w + q)),
                    max_y == prefix_max(self.heights@, at_least_one(r * w + q)),
                decreases w - q,
            {
                let cell = Hex::new(q, r);
                let (px, pz) = hex_to_world(cell);
                let hv = self.get_height(cell);
                proof {
                    assert(0 <= r * w + q < self.heights@.len()) by (nonlinear_arith)
                        requires
                            0 <= q < w,
                            0 <= r < h,
                            self.heights@.len() == w * h,
                    ;
                    assert(self.height_at(q as int, r as int) == self.heights@[r * w + q]);
                }
                if px < min_x {
                    min_x = px;
                }
                if px > max_x {
                    max_x = px;
                }
                if pz < min_z {
                    min_z = pz;
                }
                if pz > max_z {
                    max_z = pz;
                }
                if hv < min_y {
                    min_y = hv;
                }
                if hv > max_y {
                    max_y = hv;
                }
                q += 1;
            }
            proof {
                assert((r + 1) * (w as int) == r * (w as int) + (w as int)) by (nonlinear_arith);
            }
            r += 1;
        }
        proof {
            assert((h as int) * (w as int) == (w as int) * (h as int)) by (nonlinear_arith);
            assert(world_x_of(w - 1, h - 1) <= max_x);
            assert(world_z_of(h - 1) <= max_z);
            assert(at_least_one((h as int) * (w as int)) == self.heights@.len());
        }
        (Vec3::new(min_x, min_y, min_z), Vec3::new(max_x, max_y, max_z))
    }

    /// Every in-bounds cell height lies within the stored height limit.
    pub proof fn lemma_height_at_bounds(&self, q: int, r: int)
        requires
            self.wf(),
        ensures
            -HEIGHT_LIMIT <= self.height_at(q, r) <= HEIGHT_LIMIT,
    {
        if 0 <= q < self.width && 0 <= r < self.height {
            assert(0 <= r * self.width + q < self.heights@.len()) by (nonlinear_arith)
                requires
                    0 <= q < self.width,
                    0 <= r < self.height,
                    self.heights@.len() == self.width * self.height,
            ;
        }
    }

    /// The world-space position of the cell `(q, r)`: its center in the
    /// ground plane, lifted to the cell's height.
    pub open spec fn cell_pos(&self, q: int, r: int) -> (int, int, int) {
        (world_x_of(q, r), self.height_at(q, r), world_z_of(r))
    }

    /// Componentwise sum of the world positions of this level's center
    /// cells, following the same parity cases as [`center_cells_of`].
    pub open spec fn center_sum(&self) -> (int, int, int) {
        let w = self.width as int;
        let h = self.height as int;
        let wh = w / 2;
        let hh = h / 2;
        if w % 2 == 1 && h % 2 == 1 {
            self.cell_pos(wh, hh)
        } else if w % 2 == 0 && h % 2 == 0 {
            let a = self.cell_pos(wh - 1, hh - 1);
            let b = self.cell_pos(wh, hh - 1);
            let c = self.cell_pos(wh - 1, hh);
            let d = self.cell_pos(wh, hh);
            (a.0 + b.0 + c.0 + d.0, a.1 + b.1 + c.1 + d.1, a.2 + b.2 + c.2 + d.2)
        } else if w % 2 == 0 {
            let a = self.cell_pos(wh - 1, hh);
            let b = self.cell_pos(wh, hh);
            (a.0 + b.0, a.1 + b.1, a.2 + b.2)
        } else {
            let a = self.cell_pos(wh, hh - 1);
            let b = self.cell_pos(wh, hh);
            (a.0 + b.0, a.1 + b.1, a.2 + b.2)
        }
    }

    /// The center hex coordinates of this level, resolved by the parity of
    /// its dimensions: one middle cell when both are odd, the four cells
    /// around the true center when both are even, and the two cells
    /// straddling the center along the one even axis otherwise.
    pub fn get_center_hexes(&self) -> (v: Vec<Hex>)
        requires
            self.wf(),
        ensures
            v@.len() == center_cells_of(self.width as int, self.height as int).len(),
            forall|i: int|
                0 <= i < v@.len() ==> (#[trigger] v@[i].x as int, v@[i].y as int)
                    == center_cells_of(self.width as int, self.height as int)[i],
            v@.len() == if self.width % 2 == 1 && self.height % 2 == 1 {
                1int
            } else if self.width % 2 == 0 && self.height % 2 == 0 {
                4int
            } else {
                2int
            },
    {
        let w_half = self.width / 2;
        let h_half = self.height / 2;
        let mut v: Vec<Hex> = Vec::new();
        if self.width % 2 == 1 && self.height % 2 == 1 {
            v.push(Hex::new(w_half, h_half));
        } else if self.width % 2 == 0 && self.height % 2 == 0 {
            v.push(Hex::new(w_half - 1, h_half - 1));
            v.push(Hex::new(w_half, h_half - 1));
            v.push(Hex::new(w_half - 1, h_half));
            v.push(Hex::new(w_half, h_half));
        } else if self.width % 2 == 0 {
            v.push(Hex::new(w_half - 1, h_half));
            v.push(Hex::new(w_half, h_half));
        } else {
            v.push(Hex::new(w_half, h_half - 1));
            v.push(Hex::new(w_half, h_half));
        }
        v
    }

    /// The center world position: the componentwise mean (truncated toward
    /// zero) of the world positions of the center cells.
    pub fn get_center_world_pos(&self) -> (c: Vec3)
        requires
            self.wf(),
        ensures
            c.x == div_trunc(self.center_sum().0, self.center_count()),
            c.y == div_trunc(self.center_sum().1, self.center_count()),
            c.z == div_trunc(self.center_sum().2, self.center_count()),
            -WORLD_COORD_LIMIT <= c.x <= WORLD_COORD_LIMIT,
            -HEIGHT_LIMIT <= c.y <= HEIGHT_LIMIT,
            -WORLD_COORD_LIMIT <= c.z <= WORLD_COORD_LIMIT,
    {
        let centers = self.get_center_hexes();
        let count: i64 = centers.len() as i64;
        let mut sx: i64 = 0;
        let mut sy: i64 = 0;
        let mut sz: i64 = 0;
        let mut i: usize = 0;
        while i < centers.len()
            invariant
                self.wf(),
                i <= centers.len(),
                centers@.len() <= 4,
                forall|j: int|
                    0 <= j < centers@.len() ==> {
                        &&& -MAX_EXTENT <= #[trigger] centers@[j].x <= MAX_EXTENT
                        &&& -MAX_EXTENT <= centers@[j].y <= MAX_EXTENT
                    },
                sx == sum_x_prefix(self, centers@, i as int),
                sy == sum_y_prefix(self, centers@, i as int),
                sz == sum_z_prefix(self, centers@, i as int),
                -(i as int) * WORLD_COORD_LIMIT <= sx <= (i as int) * WORLD_COORD_LIMIT,
                -(i as int) * HEIGHT_LIMIT <= sy <= (i as int) * HEIGHT_LIMIT,
                -(i as int) * WORLD_COORD_LIMIT <= sz <= (i as int) * WORLD_COORD_LIMIT,
            decreases centers.len() - i,
        {
            let cell = centers[i];
            let (px, pz) = hex_to_world(cell);
            let hv = self.get_height(cell);
            proof {
                self.lemma_height_at_bounds(cell.x as int, cell.y as int);
            }
            sx = sx + px;
            sy = sy + hv;
            sz = sz + pz;
            i += 1;
        }
        proof {
            lemma_center_sums(self, centers@);
            crate::fixed::lemma_div_trunc_bound(sx as int, count as int, WORLD_COORD_LIMIT as int);
            crate::fixed::lemma_div_trunc_bound(sy as int, count as int, HEIGHT_LIMIT as int);
            crate::fixed::lemma_div_trunc_bound(sz as int, count as int, WORLD_COORD_LIMIT as int);
        }
        let cx = div_trunc_i64(sx, count);
        let cy = div_trunc_i64(sy, count);
        let cz = div_trunc_i64(sz, count);
        Vec3::new(cx, cy, cz)
    }

    /// Number of center cells, determined by the dimension parities.
    pub open spec fn center_count(&self) -> int {
        center_cells_of(self.width as int, self.height as int).len() as int
    }

    /// Squared length of the 3D diagonal of this level's world bounding box.
    pub open spec fn diagonal_sq(&self) -> int {
        let dx = world_x_of(self.width - 1, self.height - 1);
        let dz = world_z_of(self.height - 1);
        let dy = prefix_max(self.heights@, self.heights@.len() as int) - prefix_min(
            self.heights@,
            self.heights@.len() as int,
        );
        dx * dx + dy * dy + dz * dz
    }

    /// The 3D diagonal extent of this level: the Euclidean norm (rounded
    /// down) of the bounding-box span across all three axes, so that tall
    /// terrain still counts toward the framed size.
    pub fn get_level_diagonal_extent(&self) -> (d: i64)
        requires
            self.wf(),
        ensures
            d >= 0,
            d * d <= self.diagonal_sq() < (d + 1) * (d + 1),
    {
        let (bmin, bmax) = self.get_world_bounds();
        proof {
            assert(self.heights@.len() >= 1) by (nonlinear_arith)
                requires
                    self.heights@.len() == self.width * self.height,
                    self.width >= 1,
                    self.height >= 1,
            ;
            lemma_prefix_bounds(
                self.heights@,
                self.heights@.len() as int,
                -HEIGHT_LIMIT as int,
                HEIGHT_LIMIT as int,
            );
        }
        let dx: i64 = bmax.x - bmin.x;
        let dy: i64 = bmax.y - bmin.y;
        let dz: i64 = bmax.z - bmin.z;
        proof {
            assert(0 <= dx <= 1_000_000_000 && 0 <= dz <= 1_000_000_000);
            assert(dx * dx <= 1_000_000_000_000_000_000) by (nonlinear_arith)
                requires
                    0 <= dx <= 1_000_000_000,
            ;
            assert(dy * dy <= 4_000_000_000_000_000_000) by (nonlinear_arith)
                requires
                    0 <= dy <= 2_000_000_000,
            ;
            assert(dz * dz <= 1_000_000_000_000_000_000) by (nonlinear_arith)
                requires
                    0 <= dz <= 1_000_000_000,
            ;
            assert(dx * dx >= 0 && dy * dy >= 0 && dz * dz >= 0) by (nonlinear_arith);
        }
        let sum: i64 = dx * dx + dy * dy + dz * dz;
        let root: u64 = isqrt64(sum as u64);
        proof {
            assert(root <= 3_000_000_000) by (nonlinear_arith)
                requires
                    root * root <= 6_000_000_000_000_000_000,
            ;
        }
        root as i64
    }
}

impl Level {
    /// The spread of this level's terrain: greatest minus least stored
    /// height.
    pub open spec fn height_spread(&self) -> int {
        prefix_max(self.heights@, self.heights@.len() as int) - prefix_min(
            self.heights@,
            self.heights@.len() as int,
        )
    }
}

/// Law: the diagonal extent is invariant under uniform translation of all
/// heights by a constant — the bounding box shifts as a whole, so its
/// squared diagonal does not change.
pub proof fn lemma_diagonal_translation_invariant(l1: &Level, l2: &Level, c: int)
    requires
        l1.wf(),
        l2.wf(),
        l1.width == l2.width,
        l1.height == l2.height,
        forall|i: int|
            0 <= i < l1.heights@.len() ==> #[trigger] l2.heights@[i] == l1.heights@[i] + c,
    ensures
        l2.diagonal_sq() == l1.diagonal_sq(),
{
    let n = l1.heights@.len() as int;
    assert(n >= 1) by (nonlinear_arith)
        requires
            n == l1.width * l1.height,
            l1.width >= 1,
            l1.height >= 1,
    ;
    assert(l2.heights@.len() == n) by (nonlinear_arith)
        requires
            n == l1.heights@.len(),
            l1.heights@.len() == l1.width * l1.height,
            l2.heights@.len() == l2.width * l2.height,
            l1.width == l2.width,
            l1.height == l2.height,
    ;
    lemma_prefix_translate(l1.heights@, l2.heights@, n, c);
}

/// Law: with the planar extent fixed, the diagonal extent grows
/// monotonically with the height spread — a level whose spread is at least
/// another's has a diagonal at least as large.
pub proof fn lemma_diagonal_monotone_in_spread(l1: &Level, l2: &Level, d1: int, d2: int)
    requires
        l1.wf(),
        l2.wf(),
        l1.width == l2.width,
        l1.height == l2.height,
        l1.height_spread() <= l2.height_spread(),
        d1 >= 0,
        d2 >= 0,
        d1 * d1 <= l1.diagonal_sq() < (d1 + 1) * (d1 + 1),
        d2 * d2 <= l2.diagonal_sq() < (d2 + 1) * (d2 + 1),
    ensures
        d1 <= d2,
{
    let n1 = l1.heights@.len() as int;
    let n2 = l2.heights@.len() as int;
    assert(n1 >= 1) by (nonlinear_arith)
        requires
            n1 == l1.width * l1.height,
            l1.width >= 1,
            l1.height >= 1,
    ;
    assert(n2 >= 1) by (nonlinear_arith)
        requires
            n2 == l2.width * l2.height,
            l2.width >= 1,
            l2.height >= 1,
    ;
    lemma_prefix_bounds(l1.heights@, n1, -HEIGHT_LIMIT as int, HEIGHT_LIMIT as int);
    lemma_prefix_bounds(l2.heights@, n2, -HEIGHT_LIMIT as int, HEIGHT_LIMIT as int);
    let s1 = l1.height_spread();
    let s2 = l2.height_spread();
    assert(s1 * s1 <= s2 * s2) by (nonlinear_arith)
        requires
            0 <= s1 <= s2,
    ;
    crate::fixed::lemma_isqrt_mono(d1, l1.diagonal_sq(), d2, l2.diagonal_sq());
}

/// The center cells of a `w x h` grid, resolved by dimension parity.
pub open spec fn center_cells_of(w: int, h: int) -> Seq<(int, int)> {
    let wh = w / 2;
    let hh = h / 2;
    if w % 2 == 1 && h % 2 == 1 {
        seq![(wh, hh)]
    } else if w % 2 == 0 && h % 2 == 0 {
        seq![(wh - 1, hh - 1), (wh, hh - 1), (wh - 1, hh), (wh, hh)]
    } else if w % 2 == 0 {
        seq![(wh - 1, hh), (wh, hh)]
    } else {
        seq![(wh, hh - 1), (wh, hh)]
    }
}

/// Largest admissible magnitude of a planar world coordinate of a cell
/// center within the grid extent.
pub const WORLD_COORD_LIMIT: i64 = 1_000_000_000;

/// Componentwise partial sums of cell world positions over a prefix of a
/// cell list.
pub open spec fn sum_x_prefix(l: &Level, cells: Seq<Hex>, n: int) -> int
    decreases n,
{
    if n <= 0 {
        0
    } else {
        sum_x_prefix(l, cells, n - 1) + l.cell_pos(cells[n - 1].x as int, cells[n - 1].y as int).0
    }
}

pub open spec fn sum_y_prefix(l: &Level, cells: Seq<Hex>, n: int) -> int
    decreases n,
{
    if n <= 0 {
        0
    } else {
        sum_y_prefix(l, cells, n - 1) + l.cell_pos(cells[n - 1].x as int, cells[n - 1].y as int).1
    }
}

pub open spec fn sum_z_prefix(l: &Level, cells: Seq<Hex>, n: int) -> int
    decreases n,
{
    if n <= 0 {
        0
    } else {
        sum_z_prefix(l, cells, n - 1) + l.cell_pos(cells[n - 1].x as int, cells[n - 1].y as int).2
    }
}

/// Summing the world positions of the resolved center cells gives exactly
/// the case-wise [`Level::center_sum`].
proof fn lemma_center_sums(l: &Level, cells: Seq<Hex>)
    requires
        l.wf(),
        cells.len() == center_cells_of(l.width as int, l.height as int).len(),
        forall|i: int|
            0 <= i < cells.len() ==> (#[trigger] cells[i].x as int, cells[i].y as int)
                == center_cells_of(l.width as int, l.height as int)[i],
    ensures
        sum_x_prefix(l, cells, cells.len() as int) == l.center_sum().0,
        sum_y_prefix(l, cells, cells.len() as int) == l.center_sum().1,
        sum_z_prefix(l, cells, cells.len() as int) == l.center_sum().2,
{
    let n = cells.len() as int;
    assert(sum_x_prefix(l, cells, 0) == 0);
    assert(sum_y_prefix(l, cells, 0) == 0);
    assert(sum_z_prefix(l, cells, 0) == 0);
    assert(sum_x_prefix(l, cells, 1) == l.cell_pos(cells[0].x as int, cells[0].y as int).0);
    assert(sum_y_prefix(l, cells, 1) == l.cell_pos(cells[0].x as int, cells[0].y as int).1);
    assert(sum_z_prefix(l, cells, 1) == l.cell_pos(cells[0].x as int, cells[0].y as int).2);
    if n >= 2 {
        assert(sum_x_prefix(l, cells, 2) == sum_x_prefix(l, cells, 1) + l.cell_pos(
            cells[1].x as int,
            cells[1].y as int,
        ).0);
        assert(sum_y_prefix(l, cells, 2) == sum_y_prefix(l, cells, 1) + l.cell_pos(
            cells[1].x as int,
            cells[1].y as int,
        ).1);
        assert(sum_z_prefix(l, cells, 2) == sum_z_prefix(l, cells, 1) + l.cell_pos(
            cells[1].x as int,
            cells[1].y as int,
        ).2);
    }
    if n == 4 {
        assert(sum_x_prefix(l, cells, 3) == sum_x_prefix(l, cells, 2) + l.cell_pos(
            cells[2].x as int,
            cells[2].y as int,
        ).0);
        assert(sum_y_prefix(l, cells, 3) == sum_y_prefix(l, cells, 2) + l.cell_pos(
            cells[2].x as int,
            cells[2].y as int,
        ).1);
        assert(sum_z_prefix(l, cells, 3) == sum_z_prefix(l, cells, 2) + l.cell_pos(
            cells[2].x as int,
            cells[2].y as int,
        ).2);
        assert(sum_x_prefix(l, cells, 4) == sum_x_prefix(l, cells, 3) + l.cell_pos(
            cells[3].x as int,
            cells[3].y as int,
        ).0);
        assert(sum_y_prefix(l, cells, 4) == sum_y_prefix(l, cells, 3) + l.cell_pos(
            cells[3].x as int,
            cells[3].y as int,
        ).1);
        assert(sum_z_prefix(l, cells, 4) == sum_z_prefix(l, cells, 3) + l.cell_pos(
            cells[3].x as int,
            cells[3].y as int,
        ).2);
    }
}



} // verus!
