use vstd::prelude::*;
use crate::vector::{bounded, v3, Vec3, V3, COORD_LIMIT, SCALE};
use crate::geometry::{intersect_spec, lemma_ground_hit_distance, lemma_ground_not_ahead, miss, Ratio, Triangle, T_LIMIT};
use crate::mesh::floor_spec;
use crate::scene::{cast, cast_spec, lemma_cast_background, mesh_wf, BACKGROUND};

verus! {

/// Largest accepted falloff per scene unit of distance.
pub const DECAY_LIMIT: i128 = 65536;

/// The brightest intensity.
pub const WHITE: i128 = 255;

/// `x` with negative values raised to zero.
pub open spec fn clip_spec(x: int) -> int {
    if x < 0 {
        0
    } else {
        x
    }
}

/// Raises negative values to zero.
pub fn clip(x: i128) -> (r: i128)
    ensures
        r == clip_spec(x as int),
{
    if x < 0 {
        0
    } else {
        x
    }
}

/// The intensity for a distance `t.0 / t.1`: `255 - decay·t` rounded down,
/// then held to `[0, 255]`.
pub open spec fn intensity_spec(t: (int, int), decay: int) -> int {
    let f = (WHITE * t.1 - decay * t.0) / t.1;
    if f < 0 {
        0
    } else if f > WHITE {
        WHITE as int
    } else {
        f
    }
}

/// Maps a distance to a gray level that falls off by `decay` per unit.
pub fn intensity(t: Ratio, decay: i128) -> (r: u8)
    requires
        0 < t.den <= T_LIMIT,
        -T_LIMIT <= t.num <= T_LIMIT,
        0 <= decay <= DECAY_LIMIT,
    ensures
        r as int == intensity_spec(t@, decay as int),
{
    proof {
        assert(-(DECAY_LIMIT * T_LIMIT) <= decay * t.num <= DECAY_LIMIT * T_LIMIT) by (nonlinear_arith)
            requires
                -T_LIMIT <= t.num <= T_LIMIT,
                0 <= decay <= DECAY_LIMIT,
        ;
    }
    let x = WHITE * t.den - decay * t.num;
    let f = clip(x) / t.den;
    if f > WHITE {
        255
    } else {
        proof {
            if x < 0 {
                assert(x / t.den < 0) by (nonlinear_arith)
                    requires
                        x < 0,
                        t.den > 0,
                ;
            }
        }
        f as u8
    }
}

/// Pinhole camera with a fixed forward axis: rays leave `camera` towards
/// `(-1, offset_x + step·j, offset_y - step·i)` in scene units.
#[derive(Clone, Copy, Debug, PartialEq, Eq, Structural)]
pub struct RenderConfig {
    pub width: usize,
    pub height: usize,
    /// Angular step between neighbouring pixels, in fixed-point units.
    pub pixel_step: i128,
    pub camera: Vec3,
    pub decay: i128,
}

impl RenderConfig {
    /// The image plane fits the coordinate bounds.
    pub open spec fn wf(&self) -> bool {
        &&& 0 <= self.pixel_step
        &&& self.pixel_step * self.width <= COORD_LIMIT
        &&& self.pixel_step * self.height <= COORD_LIMIT
        &&& bounded(self.camera@, COORD_LIMIT as int)
        &&& 0 <= self.decay <= DECAY_LIMIT
    }
}

/// The ray direction through pixel `(i, j)`: row `i` from the top, column
/// `j` from the left.
pub open spec fn ray_dir_spec(cfg: RenderConfig, i: int, j: int) -> V3 {
    let offset_x = -((cfg.pixel_step * cfg.width) / 2);
    let offset_y = (cfg.pixel_step * cfg.height) / 2;
    v3(-SCALE, offset_x + cfg.pixel_step * j, offset_y - cfg.pixel_step * i)
}

/// Computes the ray direction through pixel `(i, j)`.
pub fn ray_direction(cfg: &RenderConfig, i: usize, j: usize) -> (r: Vec3)
    requires
        cfg.wf(),
        i < cfg.height,
        j < cfg.width,
    ensures
        r@ == ray_dir_spec(*cfg, i as int, j as int),
        bounded(r@, COORD_LIMIT as int),
{
    let s = cfg.pixel_step;
    proof {
        assert(0 <= s * j <= s * cfg.width) by (nonlinear_arith)
            requires
                0 <= s,
                j < cfg.width,
        ;
        assert(0 <= s * i <= s * cfg.height) by (nonlinear_arith)
            requires
                0 <= s,
                i < cfg.height,
        ;
        assert(0 <= s * cfg.width);
        assert(0 <= s * cfg.height);
    }
    let offset_x = -((s * cfg.width as i128) / 2);
    let offset_y = (s * cfg.height as i128) / 2;
    Vec3 { x: -SCALE, y: offset_x + s * j as i128, z: offset_y - s * i as i128 }
}

/// The gray level of pixel `(i, j)`.
pub open spec fn pixel_spec(mesh: Seq<Triangle>, cfg: RenderConfig, i: int, j: int) -> int {
    intensity_spec(cast_spec(mesh, cfg.camera@, ray_dir_spec(cfg, i, j)), cfg.decay as int)
}

/// The rows of a grid as sequences.
pub open spec fn grid_view(g: Seq<Vec<u8>>) -> Seq<Seq<u8>> {
    g.map_values(|row: Vec<u8>| row@)
}

/// `grid` has `cfg.height` rows of `cfg.width` cells, and each cell holds
/// the gray level of its pixel.
pub open spec fn rendered(mesh: Seq<Triangle>, cfg: RenderConfig, grid: Seq<Seq<u8>>) -> bool {
    &&& grid.len() == cfg.height
    &&& forall|i: int| 0 <= i < cfg.height ==> (#[trigger] grid[i]).len() == cfg.width
    &&& forall|i: int, j: int|
        0 <= i < cfg.height && 0 <= j < cfg.width ==> #[trigger] grid[i][j] as int
            == pixel_spec(mesh, cfg, i, j)
}

/// Casts one ray per pixel and returns the grid of gray levels, row by row.
pub fn render(mesh: &Vec<Triangle>, cfg: &RenderConfig) -> (r: Vec<Vec<u8>>)
    requires
        mesh_wf(mesh@),
        cfg.wf(),
    ensures
        rendered(mesh@, *cfg, grid_view(r@)),
{
    let mut grid: Vec<Vec<u8>> = Vec::new();
    let mut i: usize = 0;
    while i < cfg.height
        invariant
            mesh_wf(mesh@),
            cfg.wf(),
            0 <= i <= cfg.height,
            grid@.len() == i,
            forall|a: int| 0 <= a < i ==> (#[trigger] grid@[a])@.len() == cfg.width,
            forall|a: int, b: int|
                0 <= a < i && 0 <= b < cfg.width ==> #[trigger] grid@[a]@[b] as int == pixel_spec(
                    mesh@,
                    *cfg,
                    a,
                    b,
                ),
        decreases cfg.height - i,
    {
        let mut row: Vec<u8> = Vec::new();
        let mut j: usize = 0;
        while j < cfg.width
            invariant
                mesh_wf(mesh@),
                cfg.wf(),
                i < cfg.height,
                0 <= j <= cfg.width,
                row@.len() == j,
                forall|b: int| 0 <= b < j ==> #[trigger] row@[b] as int == pixel_spec(mesh@, *cfg, i as int, b),
            decreases cfg.width - j,
        {
            let d = ray_direction(cfg, i, j);
            let t = cast(mesh, cfg.camera, d);
            let g = intensity(t, cfg.decay);
            row.push(g);
            j = j + 1;
        }
        grid.push(row);
        i = i + 1;
    }
    proof {
        let gv = grid_view(grid@);
        assert forall|a: int| 0 <= a < cfg.height implies (#[trigger] gv[a]).len() == cfg.width by {
            assert(gv[a] == grid@[a]@);
        }
        assert forall|a: int, b: int|
            0 <= a < cfg.height && 0 <= b < cfg.width implies #[trigger] gv[a][b] as int
                == pixel_spec(mesh@, *cfg, a, b) by {
            assert(gv[a] == grid@[a]@);
        }
    }
    grid
}

/// Rendering is deterministic: two grids rendered from the same mesh and
/// cfg are identical, cell for cell.
pub proof fn lemma_render_deterministic(
    mesh: Seq<Triangle>,
    cfg: RenderConfig,
    g1: Seq<Seq<u8>>,
    g2: Seq<Seq<u8>>,
)
    requires
        rendered(mesh, cfg, g1),
        rendered(mesh, cfg, g2),
    ensures
        g1 == g2,
{
    assert forall|i: int| 0 <= i < g1.len() implies #[trigger] g1[i] == g2[i] by {
        assert(g1[i] =~= g2[i]);
    }
    assert(g1 =~= g2);
}

/// Intensity at the limits: a distance of zero is full white, a distance of
/// at least `255 / decay` is black, and every level lies in `[0, 255]`.
pub proof fn lemma_intensity_limits(num: int, den: int, decay: int)
    requires
        den > 0,
        decay > 0,
    ensures
        intensity_spec((0, den), decay) == WHITE,
        decay * num >= WHITE * den ==> intensity_spec((num, den), decay) == 0,
        0 <= intensity_spec((num, den), decay) <= WHITE,
{
    assert((WHITE * den - decay * 0) / den == WHITE) by (nonlinear_arith)
        requires
            den > 0,
    ;
    if decay * num >= WHITE * den {
        let x = WHITE * den - decay * num;
        if x < 0 {
            assert(x / den < 0) by (nonlinear_arith)
                requires
                    x < 0,
                    den > 0,
            ;
        }
    }
}

/// With the floor triangle as the whole mesh, a descending ray from above
/// that the intersector reports as a hit gets a strictly positive distance:
/// the parameter `t` at which it reaches the floor, `t · (−d.z) == o.z`.
pub proof fn lemma_floor_distance(o: V3, d: V3)
    requires
        o.z > 0,
        d.z < 0,
        intersect_spec(o, d, floor_spec()) != miss(),
    ensures
        cast_spec(seq![floor_spec()], o, d) == intersect_spec(o, d, floor_spec()),
        cast_spec(seq![floor_spec()], o, d).0 > 0,
        cast_spec(seq![floor_spec()], o, d).0 * (-d.z) == cast_spec(seq![floor_spec()], o, d).1 * o.z,
{
    let r = intersect_spec(o, d, floor_spec());
    lemma_ground_hit_distance(o, d, floor_spec());
    assert(r.1 * o.z > 0) by (nonlinear_arith)
        requires
            r.1 > 0,
            o.z > 0,
    ;
    assert(r.0 > 0) by (nonlinear_arith)
        requires
            r.0 * (-d.z) > 0,
            d.z < 0,
    ;
    assert(seq![floor_spec()][0] == floor_spec());
}

/// With the floor triangle as the whole mesh, a ray from above that does
/// not descend gets the background distance.
pub proof fn lemma_floor_background(o: V3, d: V3)
    requires
        o.z > 0,
        d.z >= 0,
    ensures
        cast_spec(seq![floor_spec()], o, d) == (BACKGROUND as int, 1int),
{
    lemma_ground_not_ahead(o, d, floor_spec());
    assert(seq![floor_spec()][0] == floor_spec());
    lemma_cast_background(seq![floor_spec()], o, d);
}

/// A two-row image of the floor alone, seen from above, is black: both rows
/// look level or upwards, so every ray gets the background distance.
pub proof fn lemma_two_row_floor_is_black(cfg: RenderConfig, i: int, j: int)
    requires
        cfg.wf(),
        cfg.height == 2,
        cfg.camera.z > 0,
        cfg.decay * BACKGROUND >= WHITE,
        0 <= i < 2,
        0 <= j < cfg.width,
    ensures
        pixel_spec(seq![floor_spec()], cfg, i, j) == 0,
{
    let d = ray_dir_spec(cfg, i, j);
    assert((cfg.pixel_step * 2) / 2 == cfg.pixel_step);
    assert(d.z >= 0) by (nonlinear_arith)
        requires
            d.z == cfg.pixel_step - cfg.pixel_step * i,
            0 <= i < 2,
            cfg.pixel_step >= 0,
    ;
    lemma_floor_background(cfg.camera@, d);
    lemma_intensity_limits(BACKGROUND as int, 1, cfg.decay as int);
}

} // verus!
