use vstd::prelude::*;
use vstd::arithmetic::power2::pow2;
use vstd::bits::lemma_u32_shl_is_mul;
use vstd::bits::lemma_u32_pow2_no_overflow;

verus! {

pub open spec fn max_of(a: int, b: int) -> int {
    if a >= b { a } else { b }
}

pub open spec fn min_of(a: int, b: int) -> int {
    if a <= b { a } else { b }
}

/// The vertex step, in tiles, that level `lod` asks for: `2^lod`, or 1 when
/// that does not fit in a `u32`.
pub open spec fn lod_step(lod: u8) -> int {
    if lod < 32 { pow2(lod as nat) as int } else { 1 }
}

/// The step of the plane of level `lod` out of `lod_levels`: the coarsest
/// level spans the whole chunk in one step, the others take `lod_step(lod)`
/// but never more than the chunk's larger side.
pub open spec fn plane_step(tiles_x: u32, tiles_y: u32, lod: u8, lod_levels: u8) -> int {
    let max_step = max_of(max_of(tiles_x as int, 1), max_of(tiles_y as int, 1));
    if lod + 1 == lod_levels { max_step } else { min_of(lod_step(lod), max_step) }
}

/// The step along an axis of `tiles` tiles: `step`, clamped to the axis.
pub open spec fn axis_step(tiles: u32, step: int) -> int {
    max_of(min_of(step, max_of(tiles as int, 1)), 1)
}

/// The number of vertices along an axis of `tiles` tiles walked by `step`.
pub open spec fn axis_vertices(tiles: u32, step: int) -> int {
    max_of(max_of(tiles as int, 1) / axis_step(tiles, step), 1) + 1
}

/// The vertex grid of a terrain plane: steps in tiles and vertex counts
/// along each axis.
#[derive(Clone, Copy, Debug, PartialEq, Eq, Structural)]
pub struct PlaneGridLayout {
    pub step_x: u32,
    pub step_y: u32,
    pub grid_x: u32,
    pub grid_y: u32,
}

fn lod_step_of(lod: u8) -> (s: u32)
    ensures
        s == lod_step(lod),
        s >= 1,
{
    if lod < 32 {
        proof {
            lemma_u32_pow2_no_overflow(lod as nat);
            lemma_u32_shl_is_mul(1, lod as u32);
        }
        1u32 << (lod as u32)
    } else {
        1
    }
}

/// Steps `sx`, `sy` and vertex counts `gx`, `gy` follow the level as
/// `lemma_plane_grid_steps` describes.
pub open spec fn grid_follows_level(tiles_x: u32, tiles_y: u32, lod: u8, lod_levels: u8, sx: int, sy: int, gx: int, gy: int) -> bool {
    let tx = vstd::math::max(tiles_x as int, 1);
    let ty = vstd::math::max(tiles_y as int, 1);
    &&& lod + 1 == lod_levels ==> sx == tx && sy == ty && gx == 2 && gy == 2
    &&& lod + 1 != lod_levels && lod < 32 ==> sx == vstd::math::min(pow2(lod as nat) as int, tx)
        && sy == vstd::math::min(pow2(lod as nat) as int, ty)
    &&& lod + 1 != lod_levels && lod >= 32 ==> sx == 1 && sy == 1
    &&& 1 <= sx <= tx && 1 <= sy <= ty
    &&& (gx - 1) * sx <= tx < gx * sx
    &&& (gy - 1) * sy <= ty < gy * sy
}

/// How a plane's grid follows its level: the coarsest level (`lod + 1 ==
/// lod_levels`) spans each side of the chunk in one step; every other level
/// steps `2^lod` tiles (1 past `2^31`), clamped to the side; and along each
/// side the grid's `n` vertices are as many as whole steps fit in the side,
/// plus one, so `(n - 1)` steps reach at most the side and `n` steps pass it.
pub proof fn lemma_plane_grid_steps(tiles_x: u32, tiles_y: u32, lod: u8, lod_levels: u8)
    ensures
        ({
            let step = plane_step(tiles_x, tiles_y, lod, lod_levels);
            grid_follows_level(
                tiles_x,
                tiles_y,
                lod,
                lod_levels,
                axis_step(tiles_x, step),
                axis_step(tiles_y, step),
                axis_vertices(tiles_x, step),
                axis_vertices(tiles_y, step),
            )
        }),
{
    let step = plane_step(tiles_x, tiles_y, lod, lod_levels);
    let tx = vstd::math::max(tiles_x as int, 1);
    let ty = vstd::math::max(tiles_y as int, 1);
    if lod < 32 {
        vstd::arithmetic::power2::lemma_pow2_pos(lod as nat);
    }
    assert(step >= 1);
    let sx = axis_step(tiles_x, step);
    let sy = axis_step(tiles_y, step);
    assert(1 <= sx <= tx);
    assert(1 <= sy <= ty);
    lemma_axis_steps(tx, sx);
    lemma_axis_steps(ty, sy);
    assert(lod + 1 == lod_levels ==> sx == tx && sy == ty);
    assert(lod + 1 == lod_levels ==> axis_vertices(tiles_x, step) == 2) by {
        if lod + 1 == lod_levels {
            assert(tx / tx == 1) by (nonlinear_arith) requires tx >= 1;
        }
    }
    assert(lod + 1 == lod_levels ==> axis_vertices(tiles_y, step) == 2) by {
        if lod + 1 == lod_levels {
            assert(ty / ty == 1) by (nonlinear_arith) requires ty >= 1;
        }
    }
}

proof fn lemma_axis_steps(t: int, s: int)
    requires
        1 <= s <= t,
    ensures
        (vstd::math::max(t / s, 1) + 1 - 1) * s <= t < (vstd::math::max(t / s, 1) + 1) * s,
{
    vstd::arithmetic::div_mod::lemma_fundamental_div_mod(t, s);
    assert(t / s >= 1) by (nonlinear_arith)
        requires
            1 <= s <= t,
            t == s * (t / s) + t % s,
            0 <= t % s < s,
    ;
    assert((t / s) * s <= t < (t / s + 1) * s) by (nonlinear_arith)
        requires
            t == s * (t / s) + t % s,
            0 <= t % s < s,
    ;
}

/// The vertex grid of the plane of level `lod` for chunks of `tiles_x` by
/// `tiles_y` tiles (a zero count counts as one tile), or `None` when the
/// vertex count along an axis does not fit in a `u32`.
pub fn plane_grid_layout(tiles_x: u32, tiles_y: u32, lod: u8, lod_levels: u8) -> (layout: Option<PlaneGridLayout>)
    requires
        lod < 255,
    ensures
        ({
            let step = plane_step(tiles_x, tiles_y, lod, lod_levels);
            match layout {
                Some(l) => {
                    &&& axis_vertices(tiles_x, step) <= u32::MAX
                    &&& axis_vertices(tiles_y, step) <= u32::MAX
                    &&& l.step_x == axis_step(tiles_x, step)
                    &&& l.step_y == axis_step(tiles_y, step)
                    &&& l.grid_x == axis_vertices(tiles_x, step)
                    &&& l.grid_y == axis_vertices(tiles_y, step)
                    &&& l.grid_x >= 2
                    &&& l.grid_y >= 2
                    &&& grid_follows_level(tiles_x, tiles_y, lod, lod_levels, l.step_x as int, l.step_y as int, l.grid_x as int, l.grid_y as int)
                },
                None => axis_vertices(tiles_x, step) > u32::MAX || axis_vertices(tiles_y, step) > u32::MAX,
            }
        }),
{
    proof {
        lemma_plane_grid_steps(tiles_x, tiles_y, lod, lod_levels);
    }
    let tx: u32 = if tiles_x > 1 { tiles_x } else { 1 };
    let ty: u32 = if tiles_y > 1 { tiles_y } else { 1 };
    let base_step = lod_step_of(lod);
    let max_step: u32 = if tx >= ty { tx } else { ty };
    let step: u32 = if lod + 1 == lod_levels {
        max_step
    } else if base_step <= max_step {
        base_step
    } else {
        max_step
    };
    let sx0: u32 = if step <= tx { step } else { tx };
    let step_x: u32 = if sx0 >= 1 { sx0 } else { 1 };
    let sy0: u32 = if step <= ty { step } else { ty };
    let step_y: u32 = if sy0 >= 1 { sy0 } else { 1 };
    let cx: u32 = tx / step_x;
    let cy: u32 = ty / step_y;
    let cells_x: u32 = if cx >= 1 { cx } else { 1 };
    let cells_y: u32 = if cy >= 1 { cy } else { 1 };
    if cells_x == u32::MAX || cells_y == u32::MAX {
        return None;
    }
    Some(PlaneGridLayout { step_x, step_y, grid_x: cells_x + 1, grid_y: cells_y + 1 })
}

/// A sequence of `u32` values read as integers.
pub open spec fn ints(s: Seq<u32>) -> Seq<int> {
    Seq::new(s.len(), |k: int| s[k] as int)
}

/// The two triangles of the grid square whose lower corner is vertex
/// `(x, y)` of a grid `gx` vertices wide.
pub open spec fn quad_indices(gx: int, x: int, y: int) -> Seq<int> {
    let i0 = y * gx + x;
    let i2 = (y + 1) * gx + x;
    seq![i0, i2, i0 + 1, i0 + 1, i2, i2 + 1]
}

/// The triangles of the first `n` squares of row `y`.
pub open spec fn row_indices(gx: int, y: int, n: nat) -> Seq<int>
    decreases n,
{
    if n == 0 {
        Seq::empty()
    } else {
        row_indices(gx, y, (n - 1) as nat) + quad_indices(gx, n - 1, y)
    }
}

/// The triangles of the first `rows` rows of squares, row by row.
pub open spec fn grid_indices(gx: int, rows: nat) -> Seq<int>
    decreases rows,
{
    if rows == 0 {
        Seq::empty()
    } else {
        grid_indices(gx, (rows - 1) as nat) + row_indices(gx, rows - 1, (gx - 1) as nat)
    }
}

/// The four triangles, two facing each way, that join the edge segment
/// `b0`-`b1` to the skirt vertices `s0` and `s0 + 1` hanging below it.
pub open spec fn skirt_segment(b0: int, b1: int, s0: int) -> Seq<int> {
    seq![b0, s0, b1, b1, s0, s0 + 1, b0, b1, s0, b1, s0 + 1, s0]
}

/// The skirt triangles of the first `n` segments of `edge`, whose skirt
/// vertices are numbered from `start`.
pub open spec fn skirt_indices(edge: Seq<int>, start: int, n: nat) -> Seq<int>
    decreases n,
{
    if n == 0 {
        Seq::empty()
    } else {
        skirt_indices(edge, start, (n - 1) as nat) + skirt_segment(edge[n - 1], edge[n as int], start + n - 1)
    }
}

/// The skirt triangles of a whole edge.
pub open spec fn edge_skirt(edge: Seq<int>, start: int) -> Seq<int> {
    skirt_indices(edge, start, (edge.len() - 1) as nat)
}

pub open spec fn top_edge(gx: int) -> Seq<int> {
    Seq::new(gx as nat, |x: int| x)
}

pub open spec fn bottom_edge(gx: int, gy: int) -> Seq<int> {
    Seq::new(gx as nat, |x: int| (gy - 1) * gx + x)
}

pub open spec fn left_edge(gx: int, gy: int) -> Seq<int> {
    Seq::new(gy as nat, |y: int| y * gx)
}

pub open spec fn right_edge(gx: int, gy: int) -> Seq<int> {
    Seq::new(gy as nat, |y: int| y * gx + gx - 1)
}

/// The grid vertex each skirt vertex hangs below: the top, bottom, left and
/// right edges in turn.
pub open spec fn skirt_sources(gx: int, gy: int) -> Seq<int> {
    top_edge(gx) + bottom_edge(gx, gy) + left_edge(gx, gy) + right_edge(gx, gy)
}

/// The skirt triangles of the four edges, the skirt vertices numbered after
/// the `gx * gy` grid vertices in the order of `skirt_sources`.
pub open spec fn all_skirt_indices(gx: int, gy: int) -> Seq<int> {
    let v = gx * gy;
    edge_skirt(top_edge(gx), v) + edge_skirt(bottom_edge(gx, gy), v + gx) + edge_skirt(left_edge(gx, gy), v + 2 * gx)
        + edge_skirt(right_edge(gx, gy), v + 2 * gx + gy)
}

/// Every entry of `s` lies in `[0, bound)`.
pub open spec fn all_below(s: Seq<int>, bound: int) -> bool {
    forall|k: int| 0 <= k < s.len() ==> 0 <= #[trigger] s[k] < bound
}

proof fn lemma_all_below_add(a: Seq<int>, b: Seq<int>, bound: int)
    requires
        all_below(a, bound),
        all_below(b, bound),
    ensures
        all_below(a + b, bound),
{
    assert forall|k: int| 0 <= k < (a + b).len() implies 0 <= #[trigger] (a + b)[k] < bound by {
        if k >= a.len() {
            assert((a + b)[k] == b[k - a.len()]);
        }
    }
}

proof fn lemma_all_below_weaken(a: Seq<int>, b1: int, b2: int)
    requires
        all_below(a, b1),
        b1 <= b2,
    ensures
        all_below(a, b2),
{
}

proof fn lemma_row_in_range(gx: int, y: int, n: nat)
    requires
        gx >= 2,
        y >= 0,
        n <= gx - 1,
    ensures
        all_below(row_indices(gx, y, n), (y + 2) * gx),
    decreases n,
{
    if n > 0 {
        lemma_row_in_range(gx, y, (n - 1) as nat);
        let x = n - 1;
        assert((y + 1) * gx + x + 1 < (y + 2) * gx) by (nonlinear_arith)
            requires
                x + 1 < gx,
        ;
        assert(y * gx + x >= 0) by (nonlinear_arith)
            requires
                y >= 0,
                gx >= 0,
                x >= 0,
        ;
        assert((y + 1) * gx == y * gx + gx) by (nonlinear_arith);
        lemma_all_below_add(row_indices(gx, y, (n - 1) as nat), quad_indices(gx, x, y), (y + 2) * gx);
    }
}

proof fn lemma_grid_in_range(gx: int, rows: nat)
    requires
        gx >= 2,
    ensures
        all_below(grid_indices(gx, rows), (rows + 1) * gx),
    decreases rows,
{
    if rows > 0 {
        lemma_grid_in_range(gx, (rows - 1) as nat);
        lemma_row_in_range(gx, rows - 1, (gx - 1) as nat);
        assert(rows * gx <= (rows + 1) * gx) by (nonlinear_arith)
            requires
                gx >= 0,
        ;
        lemma_all_below_weaken(grid_indices(gx, (rows - 1) as nat), rows * gx, (rows + 1) * gx);
        lemma_all_below_add(grid_indices(gx, (rows - 1) as nat), row_indices(gx, rows - 1, (gx - 1) as nat), (rows + 1) * gx);
    }
}

proof fn lemma_skirt_in_range(edge: Seq<int>, start: int, n: nat, bound: int)
    requires
        n < edge.len(),
        all_below(edge, bound),
        start >= 0,
        start + edge.len() <= bound,
    ensures
        all_below(skirt_indices(edge, start, n), bound),
    decreases n,
{
    if n > 0 {
        lemma_skirt_in_range(edge, start, (n - 1) as nat, bound);
        assert(0 <= edge[n - 1] < bound);
        assert(0 <= edge[n as int] < bound);
        lemma_all_below_add(
            skirt_indices(edge, start, (n - 1) as nat),
            skirt_segment(edge[n - 1], edge[n as int], start + n - 1),
            bound,
        );
    }
}

/// The triangle list of a plane of `gx` by `gy` vertices: the grid
/// triangles, then the skirts when `skirts` is set.
pub open spec fn plane_indices(gx: int, gy: int, skirts: bool) -> Seq<int> {
    grid_indices(gx, (gy - 1) as nat) + (if skirts { all_skirt_indices(gx, gy) } else { Seq::empty() })
}

/// Every triangle of a plane names one of its vertices: the `gx * gy` grid
/// vertices and, with skirts, the `2 * gx + 2 * gy` skirt vertices, which
/// hang below grid vertices.
pub proof fn lemma_plane_indices_in_range(gx: int, gy: int, skirts: bool)
    requires
        gx >= 2,
        gy >= 2,
    ensures
        skirt_sources(gx, gy).len() == 2 * gx + 2 * gy,
        all_below(skirt_sources(gx, gy), gx * gy),
        all_below(plane_indices(gx, gy, skirts), gx * gy + (if skirts { 2 * gx + 2 * gy } else { 0 })),
{
    let v = gx * gy;
    let total = v + (if skirts { 2 * gx + 2 * gy } else { 0 });
    assert((gy - 1 + 1) * gx == v) by (nonlinear_arith)
        requires
            v == gx * gy,
    ;
    lemma_grid_in_range(gx, (gy - 1) as nat);
    lemma_all_below_weaken(grid_indices(gx, (gy - 1) as nat), v, total);
    assert(all_below(top_edge(gx), v)) by {
        assert(gx <= v) by (nonlinear_arith)
            requires
                v == gx * gy,
                gy >= 1,
                gx >= 0,
        ;
    }
    assert(all_below(bottom_edge(gx, gy), v)) by {
        assert forall|k: int| 0 <= k < gx implies 0 <= #[trigger] bottom_edge(gx, gy)[k] < v by {
            assert((gy - 1) * gx + k < v) by (nonlinear_arith)
                requires
                    v == gx * gy,
                    k < gx,
            ;
            assert((gy - 1) * gx >= 0) by (nonlinear_arith)
                requires
                    gy >= 1,
                    gx >= 0,
            ;
        }
    }
    assert(all_below(left_edge(gx, gy), v)) by {
        assert forall|k: int| 0 <= k < gy implies 0 <= #[trigger] left_edge(gx, gy)[k] < v by {
            assert(k * gx < v) by (nonlinear_arith)
                requires
                    v == gx * gy,
                    k < gy,
                    gx >= 1,
            ;
            assert(k * gx >= 0) by (nonlinear_arith)
                requires
                    k >= 0,
                    gx >= 0,
            ;
        }
    }
    assert(all_below(right_edge(gx, gy), v)) by {
        assert forall|k: int| 0 <= k < gy implies 0 <= #[trigger] right_edge(gx, gy)[k] < v by {
            assert(k * gx + gx <= v) by (nonlinear_arith)
                requires
                    v == gx * gy,
                    k < gy,
                    gx >= 1,
            ;
            assert(k * gx >= 0) by (nonlinear_arith)
                requires
                    k >= 0,
                    gx >= 0,
            ;
        }
    }
    lemma_all_below_add(top_edge(gx), bottom_edge(gx, gy), v);
    lemma_all_below_add(top_edge(gx) + bottom_edge(gx, gy), left_edge(gx, gy), v);
    lemma_all_below_add(top_edge(gx) + bottom_edge(gx, gy) + left_edge(gx, gy), right_edge(gx, gy), v);
    if skirts {
        let t = v + 2 * gx + 2 * gy;
        assert(v >= 0) by (nonlinear_arith)
            requires
                v == gx * gy,
                gx >= 0,
                gy >= 0,
        ;
        lemma_all_below_weaken(top_edge(gx), v, t);
        lemma_all_below_weaken(bottom_edge(gx, gy), v, t);
        lemma_all_below_weaken(left_edge(gx, gy), v, t);
        lemma_all_below_weaken(right_edge(gx, gy), v, t);
        lemma_skirt_in_range(top_edge(gx), v, (gx - 1) as nat, t);
        lemma_skirt_in_range(bottom_edge(gx, gy), v + gx, (gx - 1) as nat, t);
        lemma_skirt_in_range(left_edge(gx, gy), v + 2 * gx, (gy - 1) as nat, t);
        lemma_skirt_in_range(right_edge(gx, gy), v + 2 * gx + gy, (gy - 1) as nat, t);
        let a = edge_skirt(top_edge(gx), v);
        let b = edge_skirt(bottom_edge(gx, gy), v + gx);
        let c = edge_skirt(left_edge(gx, gy), v + 2 * gx);
        let d = edge_skirt(right_edge(gx, gy), v + 2 * gx + gy);
        lemma_all_below_add(a, b, t);
        lemma_all_below_add(a + b, c, t);
        lemma_all_below_add(a + b + c, d, t);
        lemma_all_below_add(grid_indices(gx, (gy - 1) as nat), all_skirt_indices(gx, gy), t);
    } else {
        assert(plane_indices(gx, gy, skirts) =~= grid_indices(gx, (gy - 1) as nat));
    }
}

proof fn lemma_row_len(gx: int, y: int, n: nat)
    ensures
        row_indices(gx, y, n).len() == 6 * n,
    decreases n,
{
    if n > 0 {
        lemma_row_len(gx, y, (n - 1) as nat);
    }
}

proof fn lemma_grid_len(gx: int, rows: nat)
    requires
        gx >= 1,
    ensures
        grid_indices(gx, rows).len() == 6 * (gx - 1) * rows,
    decreases rows,
{
    if rows > 0 {
        lemma_grid_len(gx, (rows - 1) as nat);
        lemma_row_len(gx, rows - 1, (gx - 1) as nat);
        assert(6 * (gx - 1) * (rows - 1) + 6 * (gx - 1) == 6 * (gx - 1) * rows) by (nonlinear_arith);
    } else {
        assert(6 * (gx - 1) * rows == 0) by (nonlinear_arith) requires rows == 0;
    }
}

proof fn lemma_skirt_len(edge: Seq<int>, start: int, n: nat)
    ensures
        skirt_indices(edge, start, n).len() == 12 * n,
    decreases n,
{
    if n > 0 {
        lemma_skirt_len(edge, start, (n - 1) as nat);
    }
}

/// How many triangles a plane of `gx` by `gy` vertices has: two per grid
/// square, and with skirts four more per edge segment of each of the four
/// edges; with skirts it hangs one skirt vertex below each of the
/// `2 * gx + 2 * gy` edge vertices, without them none.
pub proof fn lemma_plane_counts(gx: int, gy: int, skirts: bool)
    requires
        gx >= 2,
        gy >= 2,
    ensures
        skirt_sources(gx, gy).len() == 2 * gx + 2 * gy,
        plane_indices(gx, gy, skirts).len() == 3 * (2 * (gx - 1) * (gy - 1) + if skirts { 4 * (2 * (gx - 1) + 2 * (gy - 1)) } else { 0 }),
{
    lemma_grid_len(gx, (gy - 1) as nat);
    if skirts {
        let v = gx * gy;
        lemma_skirt_len(top_edge(gx), v, (gx - 1) as nat);
        lemma_skirt_len(bottom_edge(gx, gy), v + gx, (gx - 1) as nat);
        lemma_skirt_len(left_edge(gx, gy), v + 2 * gx, (gy - 1) as nat);
        lemma_skirt_len(right_edge(gx, gy), v + 2 * gx + gy, (gy - 1) as nat);
    }
    assert(6 * (gx - 1) * (gy - 1) == 3 * (2 * (gx - 1) * (gy - 1))) by (nonlinear_arith);
}

/// The index and skirt layout of a terrain plane. Its vertices are the
/// `grid_x * grid_y` grid vertices, row by row, then one skirt vertex below
/// each entry of `skirt_sources`.
#[derive(Clone, Debug)]
pub struct PlaneTopology {
    pub skirt_sources: Vec<u32>,
    pub indices: Vec<u32>,
}

proof fn lemma_ints_push(s: Seq<u32>, v: u32)
    ensures
        ints(s.push(v)) == ints(s).push(v as int),
{
    assert(ints(s.push(v)) =~= ints(s).push(v as int));
}

proof fn lemma_ints_add(a: Seq<u32>, b: Seq<u32>)
    ensures
        ints(a + b) == ints(a) + ints(b),
{
    assert(ints(a + b) =~= ints(a) + ints(b));
}

fn push_quad(indices: &mut Vec<u32>, gx: u32, x: u32, y: u32, Ghost(total): Ghost<int>)
    requires
        total == gx * (y + 2),
        x + 1 < gx,
        total <= u32::MAX,
    ensures
        ints(final(indices)@) == ints(old(indices)@) + quad_indices(gx as int, x as int, y as int),
{
    proof {
        assert(y * gx + gx == (y + 1) * gx) by (nonlinear_arith);
        assert(y + 1 <= (y + 1) * gx) by (nonlinear_arith)
            requires
                gx >= 1,
        ;
        assert((y + 1) * gx + gx == total) by (nonlinear_arith)
            requires
                total == gx * (y + 2),
        ;
    }
    let i0: u32 = y * gx + x;
    let i2: u32 = (y + 1) * gx + x;
    let ghost s0 = indices@;
    indices.push(i0);
    indices.push(i2);
    indices.push(i0 + 1);
    indices.push(i0 + 1);
    indices.push(i2);
    indices.push(i2 + 1);
    proof {
        assert(ints(indices@) =~= ints(s0) + quad_indices(gx as int, x as int, y as int));
    }
}

fn push_skirt_segment(indices: &mut Vec<u32>, b0: u32, b1: u32, s0: u32)
    requires
        s0 < u32::MAX,
    ensures
        ints(final(indices)@) == ints(old(indices)@) + skirt_segment(b0 as int, b1 as int, s0 as int),
{
    let s1 = s0 + 1;
    let ghost before = indices@;
    indices.push(b0);
    indices.push(s0);
    indices.push(b1);
    indices.push(b1);
    indices.push(s0);
    indices.push(s1);
    indices.push(b0);
    indices.push(b1);
    indices.push(s0);
    indices.push(b1);
    indices.push(s1);
    indices.push(s0);
    proof {
        assert(ints(indices@) =~= ints(before) + skirt_segment(b0 as int, b1 as int, s0 as int));
    }
}

fn append_skirt(indices: &mut Vec<u32>, edge: &Vec<u32>, start: u32)
    requires
        edge@.len() >= 2,
        start + edge@.len() <= u32::MAX,
    ensures
        ints(final(indices)@) == ints(old(indices)@) + edge_skirt(ints(edge@), start as int),
{
    let n = edge.len() - 1;
    let mut i: usize = 0;
    while i < n
        invariant
            n == edge@.len() - 1,
            start + edge@.len() <= u32::MAX,
            i <= n,
            ints(indices@) == ints(old(indices)@) + skirt_indices(ints(edge@), start as int, i as nat),
        decreases n - i,
    {
        let ghost before = indices@;
        push_skirt_segment(indices, edge[i], edge[i + 1], start + i as u32);
        proof {
            let e = ints(edge@);
            assert(skirt_indices(e, start as int, (i + 1) as nat) == skirt_indices(e, start as int, i as nat)
                + skirt_segment(e[i as int], e[i + 1], start + i));
            assert(ints(indices@) =~= ints(old(indices)@) + skirt_indices(e, start as int, (i + 1) as nat));
        }
        i += 1;
    }
}

fn extend_with(dst: &mut Vec<u32>, src: &Vec<u32>)
    ensures
        final(dst)@ == old(dst)@ + src@,
{
    let mut i: usize = 0;
    while i < src.len()
        invariant
            i <= src@.len(),
            dst@ == old(dst)@ + src@.subrange(0, i as int),
        decreases src@.len() - i,
    {
        dst.push(src[i]);
        proof {
            assert(src@.subrange(0, i + 1) =~= src@.subrange(0, i as int).push(src@[i as int]));
        }
        i += 1;
    }
    proof {
        assert(src@.subrange(0, src@.len() as int) =~= src@);
    }
}

/// The triangles of a terrain plane of `grid_x` by `grid_y` vertices: two
/// per grid square, row by row, then, when `skirts` is set, the skirts that
/// hang below its four edges to hide cracks between levels of detail.
pub fn plane_topology(grid_x: u32, grid_y: u32, skirts: bool) -> (topo: PlaneTopology)
    requires
        grid_x >= 2,
        grid_y >= 2,
        grid_x * grid_y + (if skirts { 2 * grid_x + 2 * grid_y } else { 0 }) <= u32::MAX,
    ensures
        ints(topo.indices@) == plane_indices(grid_x as int, grid_y as int, skirts),
        ints(topo.skirt_sources@) == (if skirts { skirt_sources(grid_x as int, grid_y as int) } else { Seq::empty() }),
{
    let ghost gx = grid_x as int;
    let ghost gy = grid_y as int;
    let ghost total = gx * gy;
    proof {
        assert(gx * gy <= u32::MAX);
    }
    let cells: u32 = grid_x * grid_y;
    let mut indices: Vec<u32> = Vec::new();
    let mut y: u32 = 0;
    while y < grid_y - 1
        invariant
            grid_x >= 2,
            grid_y >= 2,
            total == gx * gy,
            gx == grid_x,
            gy == grid_y,
            total <= u32::MAX,
            y <= grid_y - 1,
            ints(indices@) == grid_indices(gx, y as nat),
        decreases grid_y - 1 - y,
    {
        let mut x: u32 = 0;
        while x < grid_x - 1
            invariant
                grid_x >= 2,
                grid_y >= 2,
                total == gx * gy,
                gx == grid_x,
                gy == grid_y,
                total <= u32::MAX,
                y < grid_y - 1,
                x <= grid_x - 1,
                ints(indices@) == grid_indices(gx, y as nat) + row_indices(gx, y as int, x as nat),
            decreases grid_x - 1 - x,
        {
            proof {
                assert(gx * (y + 2) <= gx * gy) by (nonlinear_arith)
                    requires
                        y + 2 <= gy,
                        gx >= 0,
                ;
            }
            let ghost before = indices@;
            push_quad(&mut indices, grid_x, x, y, Ghost(gx * (y + 2)));
            proof {
                assert(row_indices(gx, y as int, (x + 1) as nat) == row_indices(gx, y as int, x as nat) + quad_indices(
                    gx,
                    x as int,
                    y as int,
                ));
                assert(ints(indices@) =~= grid_indices(gx, y as nat) + row_indices(gx, y as int, (x + 1) as nat));
            }
            x += 1;
        }
        proof {
            assert(grid_indices(gx, (y + 1) as nat) == grid_indices(gx, y as nat) + row_indices(gx, y as int, (gx - 1) as nat));
        }
        y += 1;
    }
    let mut skirt_sources: Vec<u32> = Vec::new();
    if skirts {
        let mut top: Vec<u32> = Vec::new();
        let mut bottom: Vec<u32> = Vec::new();
        let mut x: u32 = 0;
        while x < grid_x
            invariant
                grid_x >= 2,
                grid_y >= 2,
                gx == grid_x,
                gy == grid_y,
                total == gx * gy,
                total <= u32::MAX,
                x <= grid_x,
                ints(top@) == top_edge(gx).subrange(0, x as int),
                ints(bottom@) == bottom_edge(gx, gy).subrange(0, x as int),
            decreases grid_x - x,
        {
            proof {
                assert((gy - 1) * gx + x < gx * gy) by (nonlinear_arith)
                    requires
                        x < gx,
                        gy >= 1,
                ;
            }
            let ghost t0 = top@;
            let ghost b0 = bottom@;
            top.push(x);
            bottom.push((grid_y - 1) * grid_x + x);
            proof {
                lemma_ints_push(t0, x);
                lemma_ints_push(b0, ((grid_y - 1) * grid_x + x) as u32);
                assert(top_edge(gx).subrange(0, x + 1) =~= top_edge(gx).subrange(0, x as int).push(x as int));
                assert(bottom_edge(gx, gy).subrange(0, x + 1) =~= bottom_edge(gx, gy).subrange(0, x as int).push(
                    (gy - 1) * gx + x,
                ));
            }
            x += 1;
        }
        let mut left: Vec<u32> = Vec::new();
        let mut right: Vec<u32> = Vec::new();
        let mut y: u32 = 0;
        while y < grid_y
            invariant
                grid_x >= 2,
                grid_y >= 2,
                gx == grid_x,
                gy == grid_y,
                total == gx * gy,
                total <= u32::MAX,
                y <= grid_y,
                ints(left@) == left_edge(gx, gy).subrange(0, y as int),
                ints(right@) == right_edge(gx, gy).subrange(0, y as int),
            decreases grid_y - y,
        {
            proof {
                assert(y * gx + gx <= gx * gy) by (nonlinear_arith)
                    requires
                        y < gy,
                        gx >= 0,
                ;
            }
            let ghost l0 = left@;
            let ghost r0 = right@;
            left.push(y * grid_x);
            right.push(y * grid_x + grid_x - 1);
            proof {
                lemma_ints_push(l0, (y * grid_x) as u32);
                lemma_ints_push(r0, (y * grid_x + grid_x - 1) as u32);
                assert(left_edge(gx, gy).subrange(0, y + 1) =~= left_edge(gx, gy).subrange(0, y as int).push(y * gx));
                assert(right_edge(gx, gy).subrange(0, y + 1) =~= right_edge(gx, gy).subrange(0, y as int).push(
                    y * gx + gx - 1,
                ));
            }
            y += 1;
        }
        proof {
            assert(ints(top@) =~= top_edge(gx));
            assert(ints(bottom@) =~= bottom_edge(gx, gy));
            assert(ints(left@) =~= left_edge(gx, gy));
            assert(ints(right@) =~= right_edge(gx, gy));
        }
        let ghost grid_part = indices@;
        append_skirt(&mut indices, &top, cells);
        append_skirt(&mut indices, &bottom, cells + grid_x);
        append_skirt(&mut indices, &left, cells + 2 * grid_x);
        append_skirt(&mut indices, &right, cells + 2 * grid_x + grid_y);
        extend_with(&mut skirt_sources, &top);
        extend_with(&mut skirt_sources, &bottom);
        extend_with(&mut skirt_sources, &left);
        extend_with(&mut skirt_sources, &right);
        proof {
            lemma_ints_add(top@, bottom@);
            lemma_ints_add(top@ + bottom@, left@);
            lemma_ints_add(top@ + bottom@ + left@, right@);
            assert(skirt_sources@ == top@ + bottom@ + left@ + right@);
            assert(ints(indices@) =~= ints(grid_part) + all_skirt_indices(gx, gy));
        }
    } else {
        proof {
            assert(ints(indices@) =~= ints(indices@) + Seq::<int>::empty());
            assert(ints(skirt_sources@) =~= Seq::<int>::empty());
        }
    }
    PlaneTopology { skirt_sources, indices }
}

/// Whether the plane of level `lod` out of `lod_levels` hangs skirts from
/// its edges: every level but the coarsest does.
pub open spec fn has_skirts(lod: u8, lod_levels: u8) -> bool {
    lod + 1 < lod_levels
}

/// The vertex grid and the triangles of the plane of level `lod` out of
/// `lod_levels`, with skirts where `has_skirts` says so; `None` where the
/// grid's vertex count along an axis, or its vertex count with skirts, does
/// not fit in a `u32`.
pub fn plane_geometry(tiles_x: u32, tiles_y: u32, lod: u8, lod_levels: u8) -> (geometry: Option<(PlaneGridLayout, PlaneTopology)>)
    requires
        lod < 255,
    ensures
        ({
            let step = plane_step(tiles_x, tiles_y, lod, lod_levels);
            let gx = axis_vertices(tiles_x, step);
            let gy = axis_vertices(tiles_y, step);
            let skirts = has_skirts(lod, lod_levels);
            let fits = gx <= u32::MAX && gy <= u32::MAX && gx * gy + (if skirts { 2 * gx + 2 * gy } else { 0 }) <= u32::MAX;
            match geometry {
                Some((l, t)) => {
                    &&& fits
                    &&& l.step_x == axis_step(tiles_x, step)
                    &&& l.step_y == axis_step(tiles_y, step)
                    &&& l.grid_x == gx
                    &&& l.grid_y == gy
                    &&& grid_follows_level(tiles_x, tiles_y, lod, lod_levels, l.step_x as int, l.step_y as int, l.grid_x as int, l.grid_y as int)
                    &&& ints(t.indices@) == plane_indices(gx, gy, skirts)
                    &&& ints(t.skirt_sources@) == (if skirts { skirt_sources(gx, gy) } else { Seq::empty() })
                    &&& lod + 1 < lod_levels ==> {
                        &&& t.skirt_sources@.len() == 2 * gx + 2 * gy
                        &&& t.indices@.len() == 3 * (2 * (gx - 1) * (gy - 1) + 4 * (2 * (gx - 1) + 2 * (gy - 1)))
                    }
                    &&& lod + 1 >= lod_levels ==> {
                        &&& t.skirt_sources@.len() == 0
                        &&& t.indices@.len() == 3 * (2 * (gx - 1) * (gy - 1))
                    }
                },
                None => !fits,
            }
        }),
{
    let layout = match plane_grid_layout(tiles_x, tiles_y, lod, lod_levels) {
        Some(l) => l,
        None => return None,
    };
    let skirts = lod + 1 < lod_levels;
    let gx = layout.grid_x as u64;
    let gy = layout.grid_y as u64;
    proof {
        assert(gx * gy <= u32::MAX * u32::MAX) by (nonlinear_arith)
            requires
                gx <= u32::MAX,
                gy <= u32::MAX,
        ;
    }
    let cells: u64 = gx * gy;
    if cells > u32::MAX as u64 {
        return None;
    }
    let total: u64 = if skirts { cells + 2 * gx + 2 * gy } else { cells };
    if total > u32::MAX as u64 {
        return None;
    }
    let topology = plane_topology(layout.grid_x, layout.grid_y, skirts);
    proof {
        lemma_plane_counts(gx as int, gy as int, skirts);
        assert(ints(topology.indices@).len() == topology.indices@.len());
        assert(ints(topology.skirt_sources@).len() == topology.skirt_sources@.len());
    }
    Some((layout, topology))
}

} // verus!
