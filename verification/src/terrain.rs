use vstd::prelude::*;
use vstd::arithmetic::power2::{pow2, lemma_pow2_unfold, lemma2_to64};

verus! {

/// Texel resolution of one clipmap tile.
#[derive(Clone, Copy, Debug)]
pub struct TerrainClipmapResourceSettings {
    pub tile_resolution: [u32; 2],
}

impl Default for TerrainClipmapResourceSettings {
    fn default() -> (s: Self)
        ensures
            s.tile_resolution@ == seq![65u32, 65u32],
    {
        TerrainClipmapResourceSettings { tile_resolution: [65, 65] }
    }
}

/// Clipmap tile resolutions for surface data and for material data.
#[derive(Clone, Copy, Debug)]
pub struct TerrainClipmapSettings {
    pub surface: TerrainClipmapResourceSettings,
    pub material: TerrainClipmapResourceSettings,
}

impl Default for TerrainClipmapSettings {
    fn default() -> (s: Self)
        ensures
            s.surface.tile_resolution@ == seq![65u32, 65u32],
            s.material.tile_resolution@ == seq![65u32, 65u32],
    {
        TerrainClipmapSettings {
            surface: TerrainClipmapResourceSettings::default(),
            material: TerrainClipmapResourceSettings::default(),
        }
    }
}

/// How a terrain chunk is named: by grid coordinates and level of detail,
/// or by an entry of the terrain database (a baked artifact or a raw chunk).
#[derive(Clone, Debug)]
pub enum TerrainChunkRef {
    Coords { coords: [i32; 2], lod: u8 },
    ArtifactEntry(String),
    ChunkEntry(String),
}

impl TerrainChunkRef {
    pub fn coords(coords: [i32; 2], lod: u8) -> (r: Self)
        ensures
            r == (TerrainChunkRef::Coords { coords, lod }),
    {
        TerrainChunkRef::Coords { coords, lod }
    }

    pub fn artifact_entry(entry: String) -> (r: Self)
        ensures
            r == TerrainChunkRef::ArtifactEntry(entry),
    {
        TerrainChunkRef::ArtifactEntry(entry)
    }

    pub fn chunk_entry(entry: String) -> (r: Self)
        ensures
            r == TerrainChunkRef::ChunkEntry(entry),
    {
        TerrainChunkRef::ChunkEntry(entry)
    }
}

/// `floor(log2(n))` for `n >= 1`, and 0 below.
pub open spec fn floor_log2(n: nat) -> nat
    decreases n,
{
    if n <= 1 { 0 } else { 1 + floor_log2(n / 2) }
}

proof fn lemma_floor_log2_small(n: nat)
    requires
        n <= u32::MAX,
    ensures
        floor_log2(n) <= 31,
{
    vstd::arithmetic::power2::lemma2_to64();
    lemma_floor_log2_below(n, 32);
}

proof fn lemma_floor_log2_below(n: nat, k: nat)
    requires
        n < vstd::arithmetic::power2::pow2(k),
        k >= 1,
    ensures
        floor_log2(n) < k,
    decreases n,
{
    vstd::arithmetic::power2::lemma_pow2_unfold(k);
    if n > 1 {
        if k == 1 {
            vstd::arithmetic::power2::lemma2_to64();
        } else {
            lemma_floor_log2_below(n / 2, (k - 1) as nat);
        }
    }
}

/// `u32::ilog2` for a positive argument.
pub fn ilog2(n: u32) -> (r: u32)
    requires
        n >= 1,
    ensures
        r as nat == floor_log2(n as nat),
        r <= 31,
        pow2(r as nat) <= n < pow2(r as nat + 1),
{
    proof {
        lemma_floor_log2_bounds(n as nat);
    }
    let mut m: u32 = n;
    let mut r: u32 = 0;
    proof {
        lemma_floor_log2_small(n as nat);
    }
    while m > 1
        invariant
            m >= 1,
            r as nat + floor_log2(m as nat) == floor_log2(n as nat),
            floor_log2(n as nat) <= 31,
        decreases m,
    {
        m = m / 2;
        r = r + 1;
    }
    r
}

/// The level of detail a clipmap cell `offset` cells away from the camera's
/// chunk asks for: full detail within one ring of the camera, then one level
/// coarser per doubling of the distance, capped at the coarsest level.
pub open spec fn clipmap_lod(offset_x: int, offset_y: int, lod_levels: u32) -> u8 {
    let ring = vstd::math::max(vstd::math::abs(offset_x) as int, vstd::math::abs(offset_y) as int);
    if ring <= 1 {
        0u8
    } else {
        vstd::math::min(floor_log2(ring as nat) as int, if lod_levels == 0 { 0int } else { lod_levels - 1 }) as u8
    }
}

/// `floor_log2(n)` is the exponent of the largest power of two not above
/// `n`.
pub proof fn lemma_floor_log2_bounds(n: nat)
    requires
        n >= 1,
    ensures
        pow2(floor_log2(n)) <= n < pow2(floor_log2(n) + 1),
    decreases n,
{
    lemma_pow2_unfold(floor_log2(n) + 1);
    if n <= 1 {
        lemma2_to64();
    } else {
        lemma_floor_log2_bounds(n / 2);
        lemma_pow2_unfold(floor_log2(n));
    }
}

/// The ring of a cell `offset` cells away from the camera's chunk: its
/// distance in the maximum norm.
pub open spec fn ring_of(offset_x: int, offset_y: int) -> int {
    vstd::math::max(vstd::math::abs(offset_x) as int, vstd::math::abs(offset_y) as int)
}

/// The clipmap level a cell asks for goes one level coarser per doubling of
/// its ring: the cells of rings 0 and 1 take level 0, and a cell of ring
/// `r >= 2` takes the level `L` with `2^L <= r < 2^(L+1)`, unless that is
/// past the coarsest level, `lod_levels - 1`, which it then takes.
pub proof fn lemma_clipmap_lod_doubles(offset_x: int, offset_y: int, lod_levels: u32)
    requires
        vstd::math::abs(offset_x) <= i32::MAX,
        vstd::math::abs(offset_y) <= i32::MAX,
    ensures
        ({
            let ring = ring_of(offset_x, offset_y);
            let lod = clipmap_lod(offset_x, offset_y, lod_levels) as int;
            let coarsest = if lod_levels == 0 { 0 } else { lod_levels - 1 };
            &&& ring <= 1 ==> lod == 0
            &&& ring >= 2 ==> {
                &&& 0 <= lod <= coarsest
                &&& pow2(lod as nat) <= ring
                &&& lod < coarsest ==> ring < pow2((lod + 1) as nat)
            }
        }),
{
    let ring = ring_of(offset_x, offset_y);
    if ring >= 2 {
        let k = floor_log2(ring as nat);
        lemma_floor_log2_bounds(ring as nat);
        lemma2_to64();
        lemma_floor_log2_below(ring as nat, 31);
        let coarsest: int = if lod_levels == 0 { 0 } else { lod_levels - 1 };
        if k as int > coarsest {
            vstd::arithmetic::power2::lemma_pow2_strictly_increases(coarsest as nat, k);
        }
    }
}

pub fn clipmap_target_lod(offset_x: i32, offset_y: i32, lod_levels: u32) -> (lod: u8)
    requires
        offset_x > i32::MIN,
        offset_y > i32::MIN,
    ensures
        lod == clipmap_lod(offset_x as int, offset_y as int, lod_levels),
        ({
            let ring = ring_of(offset_x as int, offset_y as int);
            let coarsest = if lod_levels == 0 { 0 } else { lod_levels - 1 };
            &&& ring <= 1 ==> lod == 0
            &&& ring >= 2 ==> {
                &&& lod <= coarsest
                &&& pow2(lod as nat) <= ring
                &&& lod < coarsest ==> ring < pow2((lod + 1) as nat)
            }
        }),
{
    proof {
        lemma_clipmap_lod_doubles(offset_x as int, offset_y as int, lod_levels);
    }
    let ax: u32 = if offset_x < 0 { (-offset_x) as u32 } else { offset_x as u32 };
    let ay: u32 = if offset_y < 0 { (-offset_y) as u32 } else { offset_y as u32 };
    let ring: u32 = if ax > ay { ax } else { ay };
    if ring <= 1 {
        0
    } else {
        let l = ilog2(ring);
        let cap = lod_levels.saturating_sub(1);
        let lod = if l < cap { l } else { cap };
        lod as u8
    }
}

/// One cell of the clipmap grid: the chunk it shows and the level of detail
/// it asks for.
#[derive(Clone, Copy, Debug)]
pub struct ClipmapCell {
    pub coords: [i32; 2],
    pub target_lod: u8,
}

/// The cell at column `gx`, row `gy` of a `resolution x resolution` grid
/// centred on the chunk `center`.
pub open spec fn clipmap_cell(center: [i32; 2], resolution: int, lod_levels: u32, gx: int, gy: int) -> (int, int, u8) {
    let half = resolution / 2;
    (center[0] + gx - half, center[1] + gy - half, clipmap_lod(gx - half, gy - half, lod_levels))
}

/// The cells of the clipmap grid around `center`, row by row. The grid is
/// `max(resolution, 1)` cells wide and high.
pub fn clipmap_cells(center: [i32; 2], resolution: u32, lod_levels: u32) -> (cells: Vec<ClipmapCell>)
    requires
        resolution <= i32::MAX,
        center[0] - (resolution as int) / 2 >= i32::MIN,
        center[1] - (resolution as int) / 2 >= i32::MIN,
        center[0] + (resolution as int) <= i32::MAX,
        center[1] + (resolution as int) <= i32::MAX,
    ensures
        ({
            let r = vstd::math::max(resolution as int, 1);
            &&& cells@.len() == r * r
            &&& forall|j: int| 0 <= j < r * r ==> {
                let c = #[trigger] clipmap_cell(center, r, lod_levels, j % r, j / r);
                &&& cells@[j].coords[0] as int == c.0
                &&& cells@[j].coords[1] as int == c.1
                &&& cells@[j].target_lod == c.2
            }
            &&& forall|j: int| 0 <= j < r * r ==> {
                &&& (#[trigger] cells@[j]).coords[0] - center[0] == j % r - r / 2
                &&& cells@[j].coords[1] - center[1] == j / r - r / 2
                &&& cells@[j].target_lod == clipmap_lod(cells@[j].coords[0] - center[0], cells@[j].coords[1] - center[1], lod_levels)
            }
        }),
{
    let res: i32 = if resolution == 0 { 1 } else { resolution as i32 };
    let ghost r = res as int;
    let half: i32 = res / 2;
    let mut cells: Vec<ClipmapCell> = Vec::new();
    let mut gy: i32 = 0;
    while gy < res
        invariant
            r == vstd::math::max(resolution as int, 1),
            res as int == r,
            half as int == r / 2,
            1 <= r <= i32::MAX,
            center[0] - r / 2 >= i32::MIN,
            center[1] - r / 2 >= i32::MIN,
            center[0] + r <= i32::MAX + 1,
            center[1] + r <= i32::MAX + 1,
            0 <= gy <= res,
            cells@.len() == gy as int * r,
            forall|j: int| 0 <= j < cells@.len() ==> {
                let c = #[trigger] clipmap_cell(center, r, lod_levels, j % r, j / r);
                &&& cells@[j].coords[0] as int == c.0
                &&& cells@[j].coords[1] as int == c.1
                &&& cells@[j].target_lod == c.2
            },
        decreases res - gy,
    {
        let mut gx: i32 = 0;
        while gx < res
            invariant
                r == vstd::math::max(resolution as int, 1),
                res as int == r,
                half as int == r / 2,
                1 <= r <= i32::MAX,
                center[0] - r / 2 >= i32::MIN,
                center[1] - r / 2 >= i32::MIN,
                center[0] + r <= i32::MAX + 1,
                center[1] + r <= i32::MAX + 1,
                0 <= gy < res,
                0 <= gx <= res,
                cells@.len() == gy as int * r + gx as int,
                forall|j: int| 0 <= j < cells@.len() ==> {
                    let c = #[trigger] clipmap_cell(center, r, lod_levels, j % r, j / r);
                    &&& cells@[j].coords[0] as int == c.0
                    &&& cells@[j].coords[1] as int == c.1
                    &&& cells@[j].target_lod == c.2
                },
            decreases res - gx,
        {
            let offset_x: i32 = gx - half;
            let offset_y: i32 = gy - half;
            let cell = ClipmapCell {
                coords: [center[0] + offset_x, center[1] + offset_y],
                target_lod: clipmap_target_lod(offset_x, offset_y, lod_levels),
            };
            proof {
                let j = gy as int * r + gx as int;
                vstd::arithmetic::div_mod::lemma_fundamental_div_mod_converse(j, r, gy as int, gx as int);
            }
            cells.push(cell);
            gx += 1;
        }
        proof {
            assert((gy as int + 1) * r == gy as int * r + r) by (nonlinear_arith);
        }
        gy += 1;
    }
    proof {
        assert(cells@.len() == r * r);
    }
    proof {
        assert forall|j: int| 0 <= j < r * r implies {
            &&& (#[trigger] cells@[j]).coords[0] - center[0] == j % r - r / 2
            &&& cells@[j].coords[1] - center[1] == j / r - r / 2
            &&& cells@[j].target_lod == clipmap_lod(cells@[j].coords[0] - center[0], cells@[j].coords[1] - center[1], lod_levels)
        } by {
            let c = clipmap_cell(center, r, lod_levels, j % r, j / r);
            assert(cells@[j].coords[0] as int == c.0);
        }
    }
    cells
}

/// `a` is a closer level of detail to `target` than `b`, or as close and finer.
pub open spec fn lod_better(a: u8, b: u8, target: u8) -> bool {
    let da = vstd::math::abs(a - target) as int;
    let db = vstd::math::abs(b - target) as int;
    da < db || (da == db && a < b)
}

/// Picks, among the levels of detail on offer, the one closest to
/// `target` (the finer one on a tie, the first one among equals); returns
/// its position.
pub fn select_clipmap_source(lods: &Vec<u8>, target_lod: u8) -> (best: usize)
    requires
        lods@.len() > 0,
    ensures
        best < lods@.len(),
        forall|j: int| 0 <= j < lods@.len() ==> !lod_better(lods@[j], lods@[best as int], target_lod),
        forall|j: int| 0 <= j < best ==> lod_better(lods@[best as int], lods@[j], target_lod),
        forall|j: int| 0 <= j < lods@.len() ==> vstd::math::abs(lods@[j] - target_lod) >= vstd::math::abs(
            lods@[best as int] - target_lod,
        ),
        forall|j: int| 0 <= j < lods@.len() && vstd::math::abs(lods@[j] - target_lod) == vstd::math::abs(lods@[best as int] - target_lod)
            ==> lods@[best as int] <= lods@[j],
        forall|j: int| 0 <= j < best ==> lods@[j] != lods@[best as int],
        lods@.contains(target_lod) ==> lods@[best as int] == target_lod,
{
    let mut best: usize = 0;
    let mut best_delta: u8 = if lods[0] > target_lod { lods[0] - target_lod } else { target_lod - lods[0] };
    let mut i: usize = 1;
    while i < lods.len()
        invariant
            1 <= i <= lods@.len(),
            best < i,
            best_delta as int == vstd::math::abs(lods@[best as int] - target_lod) as int,
            forall|j: int| 0 <= j < i ==> !lod_better(lods@[j], lods@[best as int], target_lod),
            forall|j: int| 0 <= j < best ==> lod_better(lods@[best as int], lods@[j], target_lod),
        decreases lods@.len() - i,
    {
        let lod = lods[i];
        let delta: u8 = if lod > target_lod { lod - target_lod } else { target_lod - lod };
        if delta < best_delta || (delta == best_delta && lod < lods[best]) {
            best = i;
            best_delta = delta;
        }
        i += 1;
    }
    proof {
        if lods@.contains(target_lod) {
            let k = choose|k: int| 0 <= k < lods@.len() && lods@[k] == target_lod;
            assert(!lod_better(lods@[k], lods@[best as int], target_lod));
        }
    }
    best
}


/// Selection entry `k` keeps the tile it held before: it held tile `s`
/// inside the clipmap, and no earlier entry held `s`.
pub open spec fn keeps_tile(previous: Seq<Option<u32>>, tile_count: int, k: int) -> bool {
    previous[k] matches Some(s) && (s as int) < tile_count
        && forall|i: int| 0 <= i < k ==> previous[i] != Some(s)
}

/// Tile `s` is kept by some entry of the selection.
pub open spec fn tile_kept(previous: Seq<Option<u32>>, tile_count: int, s: int) -> bool {
    0 <= s < tile_count && exists|j: int| 0 <= j < previous.len() && previous[j] == Some(s as u32)
}

/// How many of the first `k` entries need a new tile.
pub open spec fn new_tile_rank(previous: Seq<Option<u32>>, tile_count: int, k: int) -> nat
    decreases k,
{
    if k <= 0 {
        0
    } else {
        new_tile_rank(previous, tile_count, k - 1) + if keeps_tile(previous, tile_count, k - 1) { 0nat } else { 1nat }
    }
}

/// How many tiles below `m` no entry keeps.
pub open spec fn free_tiles_below(previous: Seq<Option<u32>>, tile_count: int, m: int) -> nat
    decreases m,
{
    if m <= 0 {
        0
    } else {
        free_tiles_below(previous, tile_count, m - 1) + if tile_kept(previous, tile_count, m - 1) { 0nat } else { 1nat }
    }
}

/// The tile handed to the entry of rank `c` among those that need one: the
/// free tile with exactly `c` free tiles below it, if there is one.
pub open spec fn nth_free_tile(previous: Seq<Option<u32>>, tile_count: int, c: nat) -> Option<int> {
    if exists|s: int| 0 <= s < tile_count && !tile_kept(previous, tile_count, s) && free_tiles_below(previous, tile_count, s) == c {
        Some(choose|s: int| 0 <= s < tile_count && !tile_kept(previous, tile_count, s) && free_tiles_below(previous, tile_count, s) == c)
    } else {
        None
    }
}

proof fn lemma_free_tiles_monotone(previous: Seq<Option<u32>>, tile_count: int, a: int, b: int)
    requires
        0 <= a <= b,
    ensures
        free_tiles_below(previous, tile_count, a) <= free_tiles_below(previous, tile_count, b),
        a < b && !tile_kept(previous, tile_count, a) ==> free_tiles_below(previous, tile_count, a) < free_tiles_below(previous, tile_count, b),
    decreases b - a,
{
    if a < b {
        lemma_free_tiles_monotone(previous, tile_count, a, b - 1);
    }
}

proof fn lemma_nth_free_tile_is(previous: Seq<Option<u32>>, tile_count: int, s: int)
    requires
        0 <= s < tile_count,
        !tile_kept(previous, tile_count, s),
    ensures
        nth_free_tile(previous, tile_count, free_tiles_below(previous, tile_count, s)) == Some(s),
{
    let c = free_tiles_below(previous, tile_count, s);
    let t = choose|t: int| 0 <= t < tile_count && !tile_kept(previous, tile_count, t) && free_tiles_below(previous, tile_count, t) == c;
    if t < s {
        lemma_free_tiles_monotone(previous, tile_count, t, s);
    } else if t > s {
        lemma_free_tiles_monotone(previous, tile_count, s, t);
    }
}

proof fn lemma_no_nth_free_tile(previous: Seq<Option<u32>>, tile_count: int, c: nat)
    requires
        tile_count >= 0,
        free_tiles_below(previous, tile_count, tile_count) <= c,
    ensures
        nth_free_tile(previous, tile_count, c) is None,
{
    if exists|s: int| 0 <= s < tile_count && !tile_kept(previous, tile_count, s) && free_tiles_below(previous, tile_count, s) == c {
        let s = choose|s: int| 0 <= s < tile_count && !tile_kept(previous, tile_count, s) && free_tiles_below(previous, tile_count, s) == c;
        lemma_free_tiles_monotone(previous, tile_count, s, tile_count);
    }
}

/// The tile chunk `k` of the selection receives: the one it keeps, else the
/// free tile of its rank among the chunks that need one, else none (the
/// chunk then gets tile 0).
pub open spec fn assigned_tile(previous: Seq<Option<u32>>, tile_count: int, k: int) -> Option<int> {
    if keeps_tile(previous, tile_count, k) {
        Some(previous[k]->Some_0 as int)
    } else {
        nth_free_tile(previous, tile_count, new_tile_rank(previous, tile_count, k))
    }
}

proof fn lemma_rank_monotone(previous: Seq<Option<u32>>, tile_count: int, a: int, b: int)
    requires
        0 <= a <= b,
    ensures
        new_tile_rank(previous, tile_count, a) <= new_tile_rank(previous, tile_count, b),
    decreases b - a,
{
    if a < b {
        lemma_rank_monotone(previous, tile_count, a, b - 1);
    }
}

/// No two chunks of a selection receive the same tile: kept tiles belong to
/// their first claimant only, handed-out tiles are free ones, and each free
/// tile goes to one rank.
pub proof fn lemma_assigned_tiles_distinct(previous: Seq<Option<u32>>, tile_count: int, a: int, b: int)
    requires
        0 <= a < b < previous.len(),
        assigned_tile(previous, tile_count, a) is Some,
        assigned_tile(previous, tile_count, b) is Some,
    ensures
        assigned_tile(previous, tile_count, a) != assigned_tile(previous, tile_count, b),
        0 <= assigned_tile(previous, tile_count, a)->Some_0 < tile_count,
{
    let ka = keeps_tile(previous, tile_count, a);
    let kb = keeps_tile(previous, tile_count, b);
    if ka && kb {
    } else if ka {
        let s = previous[a]->Some_0 as int;
        assert(tile_kept(previous, tile_count, s));
    } else if kb {
        let s = previous[b]->Some_0 as int;
        assert(tile_kept(previous, tile_count, s));
    } else {
        lemma_rank_monotone(previous, tile_count, a + 1, b);
        let ra = new_tile_rank(previous, tile_count, a);
        let rb = new_tile_rank(previous, tile_count, b);
        assert(ra < rb);
    }
}

/// Assigns clipmap tiles to a selection of distinct chunks. `previous[k]`
/// is the tile chunk `k` held in the last selection, if any. A chunk keeps
/// its tile when the tile lies inside the clipmap and no earlier chunk of
/// the selection claims it; the other chunks take the free tiles in
/// increasing order, in selection order, and tile 0 once none is left.
pub fn assign_clipmap_tiles(previous: &Vec<Option<u32>>, tile_count: usize) -> (tiles: Vec<u32>)
    requires
        tile_count <= u32::MAX,
    ensures
        tiles@.len() == previous@.len(),
        forall|k: int| 0 <= k < previous@.len() ==> #[trigger] tiles@[k] as int == (
            match assigned_tile(previous@, tile_count as int, k) {
                Some(s) => s,
                None => 0,
            }),
        forall|k: int| 0 <= k < previous@.len() ==> #[trigger] tiles@[k] < tile_count || tiles@[k] == 0,
        forall|k: int| 0 <= k < previous@.len() && previous@[k] is Some && (previous@[k]->Some_0 as int) < tile_count
            && (forall|i: int| 0 <= i < k ==> previous@[i] != previous@[k]) ==> #[trigger] tiles@[k] == previous@[k]->Some_0,
{
    let ghost prev = previous@;
    let ghost t = tile_count as int;
    let mut used: Vec<bool> = vec![false; tile_count];
    let mut kept: Vec<Option<u32>> = Vec::new();
    let mut k: usize = 0;
    while k < previous.len()
        invariant
            prev == previous@,
            t == tile_count as int,
            tile_count <= u32::MAX,
            k <= prev.len(),
            used@.len() == tile_count,
            kept@.len() == k,
            forall|s: int| 0 <= s < t ==> #[trigger] used@[s] == (exists|j: int| 0 <= j < k && prev[j] == Some(s as u32)),
            forall|j: int| 0 <= j < k ==> #[trigger] kept@[j] == (if keeps_tile(prev, t, j) { prev[j] } else { None }),
        decreases prev.len() - k,
    {
        let mut slot: Option<u32> = None;
        match previous[k] {
            Some(s) => {
                if (s as usize) < tile_count && !used[s as usize] {
                    slot = Some(s);
                }
            },
            None => {},
        }
        proof {
            let kk = k as int;
            if let Some(s) = prev[kk] {
                if (s as int) < t {
                    assert(used@[s as int] == (exists|j: int| 0 <= j < kk && prev[j] == Some(s)));
                    assert(slot is Some <==> keeps_tile(prev, t, kk));
                } else {
                    assert(!keeps_tile(prev, t, kk));
                }
            } else {
                assert(!keeps_tile(prev, t, kk));
            }
        }
        match previous[k] {
            Some(s) => {
                if (s as usize) < tile_count {
                    used.set(s as usize, true);
                }
            },
            None => {},
        }
        kept.push(slot);
        proof {
            let kk = k as int;
            assert forall|s: int| 0 <= s < t implies #[trigger] used@[s] == (exists|j: int| 0 <= j < kk + 1 && prev[j] == Some(s as u32)) by {
                if prev[kk] == Some(s as u32) {
                } else {
                    if exists|j: int| 0 <= j < kk + 1 && prev[j] == Some(s as u32) {
                        let j = choose|j: int| 0 <= j < kk + 1 && prev[j] == Some(s as u32);
                        assert(j < kk);
                    }
                }
            }
            assert forall|j: int| 0 <= j < kk + 1 implies #[trigger] kept@[j] == (if keeps_tile(prev, t, j) { prev[j] } else { None }) by {
                if j == kk {
                    assert(kept@[j] == slot);
                }
            }
        }
        k += 1;
    }
    proof {
        assert forall|s: int| 0 <= s < t implies #[trigger] used@[s] == tile_kept(prev, t, s) by {
        }
    }
    let mut tiles: Vec<u32> = Vec::new();
    let mut next_slot: usize = 0;
    let mut k: usize = 0;
    while k < previous.len()
        invariant
            prev == previous@,
            t == tile_count as int,
            tile_count <= u32::MAX,
            k <= prev.len(),
            kept@.len() == prev.len(),
            forall|j: int| 0 <= j < prev.len() ==> #[trigger] kept@[j] == (if keeps_tile(prev, t, j) { prev[j] } else { None }),
            used@.len() == tile_count,
            next_slot <= tile_count,
            forall|s: int| 0 <= s < t ==> #[trigger] used@[s] == (tile_kept(prev, t, s) || s < next_slot),
            free_tiles_below(prev, t, next_slot as int) == vstd::math::min(
                new_tile_rank(prev, t, k as int) as int,
                free_tiles_below(prev, t, t) as int,
            ),
            free_tiles_below(prev, t, next_slot as int) < new_tile_rank(prev, t, k as int) ==> next_slot == tile_count,
            tiles@.len() == k,
            forall|j: int| 0 <= j < k ==> #[trigger] tiles@[j] as int == (
                if keeps_tile(prev, t, j) {
                    prev[j]->Some_0 as int
                } else {
                    match nth_free_tile(prev, t, new_tile_rank(prev, t, j)) {
                        Some(s) => s,
                        None => 0,
                    }
                }),
        decreases prev.len() - k,
    {
        let ghost kk = k as int;
        let ghost c = new_tile_rank(prev, t, kk);
        let ghost before_tiles = tiles@;
        match kept[k] {
            Some(s) => {
                tiles.push(s);
                proof {
                    assert(keeps_tile(prev, t, kk));
                    assert(new_tile_rank(prev, t, kk + 1) == c);
                }
            },
            None => {
                proof {
                    assert(!keeps_tile(prev, t, kk));
                    assert(new_tile_rank(prev, t, kk + 1) == c + 1);
                    lemma_free_tiles_monotone(prev, t, next_slot as int, t);
                }
                while next_slot < tile_count && used[next_slot]
                    invariant
                        t == tile_count as int,
                        used@.len() == tile_count,
                        next_slot <= tile_count,
                        forall|s: int| 0 <= s < t ==> #[trigger] used@[s] == (tile_kept(prev, t, s) || s < next_slot),
                        free_tiles_below(prev, t, next_slot as int) == vstd::math::min(c as int, free_tiles_below(prev, t, t) as int),
                        free_tiles_below(prev, t, next_slot as int) < c ==> next_slot == tile_count,
                    decreases tile_count - next_slot,
                {
                    proof {
                        assert(tile_kept(prev, t, next_slot as int));
                    }
                    next_slot += 1;
                }
                let slot: u32 = if next_slot < tile_count {
                    let s = next_slot;
                    proof {
                        assert(!tile_kept(prev, t, s as int));
                        lemma_free_tiles_monotone(prev, t, s as int, t);
                        lemma_nth_free_tile_is(prev, t, s as int);
                        assert(free_tiles_below(prev, t, s as int) == c);
                    }
                    used.set(next_slot, true);
                    next_slot += 1;
                    s as u32
                } else {
                    proof {
                        lemma_no_nth_free_tile(prev, t, c);
                    }
                    0
                };
                tiles.push(slot);
            },
        }
        proof {
            assert forall|j: int| 0 <= j < kk + 1 implies #[trigger] tiles@[j] as int == (
                if keeps_tile(prev, t, j) {
                    prev[j]->Some_0 as int
                } else {
                    match nth_free_tile(prev, t, new_tile_rank(prev, t, j)) {
                        Some(s) => s,
                        None => 0,
                    }
                }) by {
                if j < kk {
                    assert(tiles@[j] == before_tiles[j]);
                }
            }
        }
        k += 1;
    }
    proof {
        assert forall|k: int| 0 <= k < previous@.len() implies #[trigger] tiles@[k] < tile_count || tiles@[k] == 0 by {
            if !keeps_tile(previous@, tile_count as int, k) {
                let c = new_tile_rank(previous@, tile_count as int, k);
                if nth_free_tile(previous@, tile_count as int, c) is Some {
                }
            }
        }
    }
    tiles
}


/// `a + 1`, saturating at `u32::MAX`, and at least 1.
pub open spec fn grid_side(a: u32) -> u32 {
    if a == u32::MAX { u32::MAX } else { (a + 1) as u32 }
}

/// Samples per side of a chunk's height grid: one more than its tiles per
/// side (saturating), at least one.
pub fn chunk_grid_size(tiles_per_chunk: [u32; 2]) -> (grid: [u32; 2])
    ensures
        grid[0] == grid_side(tiles_per_chunk[0]),
        grid[1] == grid_side(tiles_per_chunk[1]),
        grid[0] >= 1 && grid[1] >= 1,
        tiles_per_chunk[0] < u32::MAX ==> grid[0] == tiles_per_chunk[0] + 1,
        tiles_per_chunk[1] < u32::MAX ==> grid[1] == tiles_per_chunk[1] + 1,
        tiles_per_chunk[0] == u32::MAX ==> grid[0] == u32::MAX,
        tiles_per_chunk[1] == u32::MAX ==> grid[1] == u32::MAX,
{
    [tiles_per_chunk[0].saturating_add(1), tiles_per_chunk[1].saturating_add(1)]
}

/// Where the height sample at column `x`, row `y` of a grid lies in the
/// row-major sample list, or `None` outside the grid.
pub fn chunk_height_sample_index(grid: [u32; 2], x: u32, y: u32) -> (idx: Option<usize>)
    requires
        x < grid[0] && y < grid[1] ==> y as int * grid[0] as int + x as int <= u32::MAX,
    ensures
        (x >= grid[0] || y >= grid[1]) ==> idx is None,
        (x < grid[0] && y < grid[1]) ==> idx == Some((y as int * grid[0] as int + x as int) as usize),
{
    if x >= grid[0] || y >= grid[1] {
        return None;
    }
    proof {
        assert(y as int * grid[0] as int >= 0) by (nonlinear_arith);
    }
    let idx: u32 = y * grid[0] + x;
    Some(idx as usize)
}

/// The two samples a finite difference along one axis uses at position
/// `pos` of a grid side `len` samples long, and the distance between them
/// in samples: a forward difference at the start, a backward one at the end,
/// a central one in between.
pub fn normal_stencil(pos: u32, len: u32) -> (stencil: (u32, u32, u32))
    requires
        pos < u32::MAX,
    ensures
        ({
            let before = if pos == 0 { 0 } else { pos - 1 };
            let last = if len == 0 { 0 } else { len - 1 };
            let after = vstd::math::min(pos + 1, last);
            if pos == 0 {
                stencil == (pos, after as u32, 1u32)
            } else if pos == last {
                stencil == (before as u32, pos, 1u32)
            } else {
                stencil == (before as u32, after as u32, 2u32)
            }
        }),
{
    let before = pos.saturating_sub(1);
    let last = len.saturating_sub(1);
    let after = if pos + 1 < last { pos + 1 } else { last };
    if pos == 0 {
        (pos, after, 1)
    } else if pos == last {
        (before, pos, 1)
    } else {
        (before, after, 2)
    }
}

/// The tile whose material a grid sample takes: the sample's own tile, or
/// the last tile for the samples on the far edges.
pub fn material_tile(x: u32, y: u32, tiles_per_chunk: [u32; 2]) -> (tile: [u32; 2])
    ensures
        tile[0] as int == vstd::math::min(x as int, vstd::math::max(tiles_per_chunk[0] - 1, 0)),
        tile[1] as int == vstd::math::min(y as int, vstd::math::max(tiles_per_chunk[1] - 1, 0)),
{
    let max_x = tiles_per_chunk[0].saturating_sub(1);
    let max_y = tiles_per_chunk[1].saturating_sub(1);
    [if x < max_x { x } else { max_x }, if y < max_y { y } else { max_y }]
}

} // verus!
