use vstd::prelude::*;

verus! {

/// Chunks whose artifacts are (re)built per frame during a refresh.
pub const TERRAIN_REFRESH_CHUNK_BUDGET_PER_FRAME: usize = 12;

/// Frames between terrain refreshes while the camera moves.
pub const TERRAIN_REFRESH_FRAME_INTERVAL: u64 = 4;

/// A terrain chunk of a project, by grid coordinates.
#[derive(Clone, Debug)]
pub struct TerrainChunkKey {
    pub project_key: String,
    pub coords: [i32; 2],
}

/// A chunk key as plain values.
pub struct ChunkKeyView {
    pub project: Seq<char>,
    pub x: i32,
    pub y: i32,
}

impl View for TerrainChunkKey {
    type V = ChunkKeyView;

    open spec fn view(&self) -> ChunkKeyView {
        ChunkKeyView { project: self.project_key@, x: self.coords[0], y: self.coords[1] }
    }
}

impl TerrainChunkKey {
    /// Whether two keys name the same chunk.
    pub fn same_as(&self, other: &TerrainChunkKey) -> (b: bool)
        ensures
            b == (self@ == other@),
    {
        self.coords[0] == other.coords[0] && self.coords[1] == other.coords[1] && self.project_key == other.project_key
    }
}

/// A list of chunk keys with their content hashes names each key once.
pub open spec fn distinct_keys(list: Seq<(TerrainChunkKey, u64)>) -> bool {
    forall|i: int, j: int| 0 <= i < list.len() && 0 <= j < list.len() && i != j ==> (#[trigger] list[i]).0@ != (#[trigger] list[j]).0@
}

/// The content hash that `list` records for chunk `k`, if any.
pub open spec fn hash_of(list: Seq<(TerrainChunkKey, u64)>, k: ChunkKeyView) -> Option<u64> {
    if exists|i: int| 0 <= i < list.len() && list[i].0@ == k {
        Some(list[choose|i: int| 0 <= i < list.len() && list[i].0@ == k].1)
    } else {
        None
    }
}

proof fn lemma_hash_at(list: Seq<(TerrainChunkKey, u64)>, i: int)
    requires
        distinct_keys(list),
        0 <= i < list.len(),
    ensures
        hash_of(list, list[i].0@) == Some(list[i].1),
{
    let c = choose|c: int| 0 <= c < list.len() && list[c].0@ == list[i].0@;
    if c != i {
        assert(list[c].0@ != list[i].0@);
    }
}

/// What a terrain refresh has to do after the chunks in view were fetched.
pub enum TerrainRefreshPlan {
    /// Nothing to rebuild; when `adopt_hashes` is set the fetched hashes
    /// become the last known ones.
    Skip { adopt_hashes: bool },
    /// Rebuild the chunks at these positions of the fetched list and drop the
    /// chunks at these positions of the last known list.
    Delta { updates: Vec<usize>, removals: Vec<usize> },
    /// Rebuild every chunk.
    Full,
}

/// Position `i` of `next` holds a chunk that is new or whose hash changed.
pub open spec fn needs_update(last: Seq<(TerrainChunkKey, u64)>, next: Seq<(TerrainChunkKey, u64)>, i: int) -> bool {
    hash_of(last, next[i].0@) != Some(next[i].1)
}

/// Position `j` of `last` holds a chunk that is no longer in view.
pub open spec fn needs_removal(last: Seq<(TerrainChunkKey, u64)>, next: Seq<(TerrainChunkKey, u64)>, j: int) -> bool {
    hash_of(next, last[j].0@) is None
}

/// The two hash maps differ.
pub open spec fn hashes_changed(last: Seq<(TerrainChunkKey, u64)>, next: Seq<(TerrainChunkKey, u64)>) -> bool {
    exists|k: ChunkKeyView| hash_of(last, k) != hash_of(next, k)
}

/// `v` lists, in increasing order, exactly the positions below `n` where `p` holds.
pub open spec fn positions_where(v: Seq<usize>, n: int, p: spec_fn(int) -> bool) -> bool {
    &&& forall|a: int, b: int| 0 <= a < b < v.len() ==> v[a] < v[b]
    &&& forall|a: int| 0 <= a < v.len() ==> (v[a] as int) < n && p(v[a] as int)
    &&& forall|i: int| 0 <= i < n && #[trigger] p(i) ==> v.contains(i as usize)
}

/// The hash of chunk `k` once a delta refresh has rebuilt the chunks that
/// need an update and dropped those that need removal: the fetched hash for
/// an updated chunk, none for a removed one, the last known hash otherwise.
pub open spec fn hash_after_delta(last: Seq<(TerrainChunkKey, u64)>, next: Seq<(TerrainChunkKey, u64)>, k: ChunkKeyView) -> Option<u64> {
    if exists|i: int| 0 <= i < next.len() && next[i].0@ == k && #[trigger] needs_update(last, next, i) {
        Some(next[choose|i: int| 0 <= i < next.len() && next[i].0@ == k && #[trigger] needs_update(last, next, i)].1)
    } else if exists|j: int| 0 <= j < last.len() && last[j].0@ == k && #[trigger] needs_removal(last, next, j) {
        None
    } else {
        hash_of(last, k)
    }
}

/// A delta refresh brings the known chunks up to date: rebuilding the chunks
/// that need an update and dropping those that need removal turns the last
/// known hashes into exactly the fetched ones.
pub proof fn lemma_delta_reaches_fetched(last: Seq<(TerrainChunkKey, u64)>, next: Seq<(TerrainChunkKey, u64)>, k: ChunkKeyView)
    requires
        distinct_keys(last),
        distinct_keys(next),
    ensures
        hash_after_delta(last, next, k) == hash_of(next, k),
{
    if exists|i: int| 0 <= i < next.len() && next[i].0@ == k {
        let i = choose|i: int| 0 <= i < next.len() && next[i].0@ == k;
        lemma_hash_at(next, i);
        if needs_update(last, next, i) {
            let w = choose|w: int| 0 <= w < next.len() && next[w].0@ == k && #[trigger] needs_update(last, next, w);
            if w != i {
                assert(next[w].0@ != next[i].0@);
            }
        } else {
            assert forall|w: int| 0 <= w < next.len() && next[w].0@ == k implies !#[trigger] needs_update(last, next, w) by {
                if w != i {
                    assert(next[w].0@ != next[i].0@);
                }
            }
            assert forall|j: int| 0 <= j < last.len() && last[j].0@ == k implies !#[trigger] needs_removal(last, next, j) by {
            }
        }
    } else {
        assert forall|i: int| 0 <= i < next.len() && next[i].0@ == k implies !#[trigger] needs_update(last, next, i) by {
        }
        if exists|j: int| 0 <= j < last.len() && last[j].0@ == k {
            let j = choose|j: int| 0 <= j < last.len() && last[j].0@ == k;
            assert(needs_removal(last, next, j));
        }
    }
}

fn find_key(list: &Vec<(TerrainChunkKey, u64)>, key: &TerrainChunkKey) -> (r: Option<usize>)
    requires
        distinct_keys(list@),
    ensures
        r is None <==> hash_of(list@, key@) is None,
        r matches Some(i) ==> i < list@.len() && list@[i as int].0@ == key@ && hash_of(list@, key@) == Some(list@[i as int].1),
{
    let mut i: usize = 0;
    while i < list.len()
        invariant
            distinct_keys(list@),
            i <= list@.len(),
            forall|j: int| 0 <= j < i ==> list@[j].0@ != key@,
        decreases list@.len() - i,
    {
        if list[i].0.same_as(key) {
            proof {
                lemma_hash_at(list@, i as int);
            }
            return Some(i);
        }
        i += 1;
    }
    None
}

/// Decides what a terrain refresh does. A full rebuild is owed when the
/// terrain settings changed, nothing is built yet, or the terrain is marked
/// dirty; it is skipped when, besides, the settings and the hashes are
/// unchanged, the terrain is clean and every chunk has all its levels built.
/// Otherwise, when the hashes changed, only the new or changed chunks are
/// rebuilt and the chunks out of view dropped; when they did not, nothing is
/// done but adopting the fetched hashes.
pub fn plan_terrain_refresh(
    settings_changed: bool,
    built_objects: usize,
    terrain_dirty: bool,
    lod_levels: u8,
    last: &Vec<(TerrainChunkKey, u64)>,
    next: &Vec<(TerrainChunkKey, u64)>,
) -> (plan: TerrainRefreshPlan)
    requires
        distinct_keys(last@),
        distinct_keys(next@),
        next@.len() * 256 <= usize::MAX,
    ensures
        ({
            let changed = hashes_changed(last@, next@);
            let full = settings_changed || built_objects == 0 || terrain_dirty;
            if !full {
                if !changed {
                    plan == (TerrainRefreshPlan::Skip { adopt_hashes: true })
                } else {
                    plan matches TerrainRefreshPlan::Delta { updates, removals }
                        && positions_where(updates@, next@.len() as int, |i: int| needs_update(last@, next@, i))
                        && positions_where(removals@, last@.len() as int, |j: int| needs_removal(last@, next@, j))
                        && (updates@.len() > 0 || removals@.len() > 0)
                }
            } else if !settings_changed && !changed && !terrain_dirty
                && next@.len() * lod_levels == built_objects {
                plan == (TerrainRefreshPlan::Skip { adopt_hashes: false })
            } else {
                plan is Full
            }
        }),
{
    let mut updates: Vec<usize> = Vec::new();
    let mut i: usize = 0;
    while i < next.len()
        invariant
            distinct_keys(last@),
            distinct_keys(next@),
            i <= next@.len(),
            forall|a: int, b: int| 0 <= a < b < updates@.len() ==> updates@[a] < updates@[b],
            forall|a: int| 0 <= a < updates@.len() ==> (updates@[a] as int) < i && needs_update(last@, next@, updates@[a] as int),
            forall|k: int| 0 <= k < i && needs_update(last@, next@, k) ==> updates@.contains(k as usize),
        decreases next@.len() - i,
    {
        let stale = match find_key(last, &next[i].0) {
            Some(j) => last[j].1 != next[i].1,
            None => true,
        };
        let ghost before = updates@;
        if stale {
            updates.push(i);
            proof {
                assert forall|k: int| 0 <= k < i + 1 && needs_update(last@, next@, k) implies updates@.contains(k as usize) by {
                    if k < i {
                        let w = choose|w: int| 0 <= w < before.len() && before[w] == k as usize;
                        assert(updates@[w] == k as usize);
                    } else {
                        assert(updates@[updates@.len() - 1] == i);
                    }
                }
            }
        }
        i += 1;
    }
    let mut removals: Vec<usize> = Vec::new();
    let mut j: usize = 0;
    while j < last.len()
        invariant
            distinct_keys(last@),
            distinct_keys(next@),
            j <= last@.len(),
            forall|a: int, b: int| 0 <= a < b < removals@.len() ==> removals@[a] < removals@[b],
            forall|a: int| 0 <= a < removals@.len() ==> (removals@[a] as int) < j && needs_removal(last@, next@, removals@[a] as int),
            forall|k: int| 0 <= k < j && needs_removal(last@, next@, k) ==> removals@.contains(k as usize),
        decreases last@.len() - j,
    {
        let gone = find_key(next, &last[j].0).is_none();
        let ghost before = removals@;
        if gone {
            removals.push(j);
            proof {
                assert forall|k: int| 0 <= k < j + 1 && needs_removal(last@, next@, k) implies removals@.contains(k as usize) by {
                    if k < j {
                        let w = choose|w: int| 0 <= w < before.len() && before[w] == k as usize;
                        assert(removals@[w] == k as usize);
                    } else {
                        assert(removals@[removals@.len() - 1] == j);
                    }
                }
            }
        }
        j += 1;
    }
    let changed = updates.len() > 0 || removals.len() > 0;
    proof {
        if changed {
            if updates@.len() > 0 {
                let i0 = updates@[0] as int;
                assert(needs_update(last@, next@, i0));
                lemma_hash_at(next@, i0);
                assert(hash_of(last@, next@[i0].0@) != hash_of(next@, next@[i0].0@));
            } else {
                let j0 = removals@[0] as int;
                assert(needs_removal(last@, next@, j0));
                lemma_hash_at(last@, j0);
                assert(hash_of(last@, last@[j0].0@) != hash_of(next@, last@[j0].0@));
            }
        } else {
            assert forall|k: ChunkKeyView| hash_of(last@, k) == hash_of(next@, k) by {
                if exists|a: int| 0 <= a < next@.len() && next@[a].0@ == k {
                    let a = choose|a: int| 0 <= a < next@.len() && next@[a].0@ == k;
                    lemma_hash_at(next@, a);
                    if needs_update(last@, next@, a) {
                        assert(updates@.contains(a as usize));
                    }
                } else if exists|b: int| 0 <= b < last@.len() && last@[b].0@ == k {
                    let b = choose|b: int| 0 <= b < last@.len() && last@[b].0@ == k;
                    lemma_hash_at(last@, b);
                    assert(needs_removal(last@, next@, b));
                    assert(removals@.contains(b as usize));
                }
            }
        }
    }
    let full = settings_changed || built_objects == 0 || terrain_dirty;
    proof {
        assert(next@.len() * lod_levels <= next@.len() * 256) by (nonlinear_arith)
            requires lod_levels < 256;
    }
    if !full {
        if !changed {
            TerrainRefreshPlan::Skip { adopt_hashes: true }
        } else {
            TerrainRefreshPlan::Delta { updates, removals }
        }
    } else if !settings_changed && !changed && !terrain_dirty && next.len() * (lod_levels as usize) == built_objects {
        TerrainRefreshPlan::Skip { adopt_hashes: false }
    } else {
        TerrainRefreshPlan::Full
    }
}

/// How many chunks of a full refresh to build this frame: as many as the
/// budget allows of those left, and whether the refresh then completes.
pub fn full_refresh_batch(index: usize, total: usize, budget: usize) -> (batch: (usize, bool))
    ensures
        ({
            let left = if index < total { total - index } else { 0 };
            &&& batch.0 as int == vstd::math::min(budget as int, left)
            &&& batch.1 == (index + batch.0 >= total)
        }),
{
    let left = if index < total { total - index } else { 0 };
    let count = if budget < left { budget } else { left };
    (count, count >= left)
}

/// How many updated chunks, then removed chunks, of a delta refresh to handle
/// this frame (updates first, out of one shared budget), and whether the
/// refresh then completes.
pub fn delta_refresh_batch(
    update_index: usize,
    updates: usize,
    removal_index: usize,
    removals: usize,
    budget: usize,
) -> (batch: (usize, usize, bool))
    ensures
        ({
            let updates_left = if update_index < updates { updates - update_index } else { 0 };
            let removals_left = if removal_index < removals { removals - removal_index } else { 0 };
            &&& batch.0 as int == vstd::math::min(budget as int, updates_left)
            &&& batch.1 as int == vstd::math::min(budget - batch.0, removals_left)
            &&& batch.2 == (batch.0 == updates_left && batch.1 == removals_left)
        }),
{
    let updates_left = if update_index < updates { updates - update_index } else { 0 };
    let removals_left = if removal_index < removals { removals - removal_index } else { 0 };
    let n_updates = if budget < updates_left { budget } else { updates_left };
    let rest = budget - n_updates;
    let n_removals = if rest < removals_left { rest } else { removals_left };
    (n_updates, n_removals, n_updates == updates_left && n_removals == removals_left)
}

/// What the refresh check reads of the terrain renderer: whether the
/// terrain is dirty, the frame counters, whether the camera is nearly still,
/// the chunk under the camera now and at the last refresh, whether the
/// camera moved or the view changed noticeably since then, and whether any
/// terrain object is built.
#[derive(Clone, Copy, Debug)]
pub struct TerrainRefreshInputs {
    pub terrain_dirty: bool,
    pub frame_index: u64,
    pub last_refresh_frame: u64,
    pub camera_still: bool,
    pub current_chunk: Option<[i32; 2]>,
    pub last_chunk: Option<[i32; 2]>,
    pub camera_moved: bool,
    pub view_changed: bool,
    pub objects_empty: bool,
}

/// The camera stands over a chunk other than the one at the last refresh
/// (or none was recorded then).
pub open spec fn entered_new_chunk(current: Option<[i32; 2]>, last: Option<[i32; 2]>) -> bool {
    match current {
        Some(c) => match last {
            Some(l) => l[0] != c[0] || l[1] != c[1],
            None => true,
        },
        None => false,
    }
}

fn chunk_changed(current: Option<[i32; 2]>, last: Option<[i32; 2]>) -> (b: bool)
    ensures
        b == entered_new_chunk(current, last),
{
    match current {
        Some(c) => match last {
            Some(l) => l[0] != c[0] || l[1] != c[1],
            None => true,
        },
        None => false,
    }
}

/// Whether the terrain should refresh this frame. A dirty terrain always
/// does. Refreshes are due every frame while the camera is nearly still and
/// every `TERRAIN_REFRESH_FRAME_INTERVAL` frames otherwise; between them only
/// entering a new chunk triggers one. When due: with nothing built, entering
/// a new chunk decides; otherwise a noticeable camera move or view change.
pub fn should_refresh_terrain(inputs: &TerrainRefreshInputs) -> (refresh: bool)
    ensures
        ({
            let interval: int = if inputs.camera_still { 1 } else { TERRAIN_REFRESH_FRAME_INTERVAL as int };
            let elapsed: int = if inputs.frame_index >= inputs.last_refresh_frame {
                inputs.frame_index - inputs.last_refresh_frame
            } else {
                0
            };
            refresh == if inputs.terrain_dirty {
                true
            } else if elapsed < interval {
                entered_new_chunk(inputs.current_chunk, inputs.last_chunk)
            } else if inputs.objects_empty && inputs.current_chunk is Some {
                entered_new_chunk(inputs.current_chunk, inputs.last_chunk)
            } else {
                inputs.camera_moved || inputs.view_changed
            }
        }),
{
    let interval: u64 = if inputs.camera_still { 1 } else { TERRAIN_REFRESH_FRAME_INTERVAL };
    let due = inputs.frame_index.saturating_sub(inputs.last_refresh_frame) >= interval;
    if inputs.terrain_dirty {
        return true;
    }
    if !due {
        return chunk_changed(inputs.current_chunk, inputs.last_chunk);
    }
    if inputs.objects_empty && inputs.current_chunk.is_some() {
        return chunk_changed(inputs.current_chunk, inputs.last_chunk);
    }
    inputs.camera_moved || inputs.view_changed
}

} // verus!
