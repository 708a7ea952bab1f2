use vstd::prelude::*;
use crate::handle::Handle;

verus! {

/// Why a physics call was refused.
#[derive(Debug, Clone, Copy, PartialEq, Eq, Structural)]
pub enum PhysicsError {
    InvalidHandle,
}

/// The shape a rigid body collides as.
#[derive(Clone, Copy, Debug, PartialEq, Eq, Structural)]
pub enum CollisionShapeType {
    Sphere,
    Box,
    Capsule,
}

impl Default for CollisionShapeType {
    fn default() -> (s: Self)
        ensures
            s == CollisionShapeType::Sphere,
    {
        CollisionShapeType::Sphere
    }
}

/// The material a new rigid body uses: the one it asks for, or the
/// simulation's default material when it asks for none (an invalid handle).
pub fn effective_material(requested: Handle, default_material: Handle) -> (m: Handle)
    ensures
        m == (if requested.is_valid() { requested } else { default_material }),
{
    if requested.valid() { requested } else { default_material }
}

/// The order-free key of a pair of bodies: their slots, smaller first.
pub open spec fn pair_key(a: Handle, b: Handle) -> (u16, u16) {
    if a.slot < b.slot { (a.slot, b.slot) } else { (b.slot, a.slot) }
}

pub fn contact_pair_key(a: Handle, b: Handle) -> (k: (u16, u16))
    ensures
        k == pair_key(a, b),
        k.0 <= k.1,
        (k.0 == a.slot && k.1 == b.slot) || (k.0 == b.slot && k.1 == a.slot),
        k == pair_key(b, a),
{
    if a.slot < b.slot { (a.slot, b.slot) } else { (b.slot, a.slot) }
}

/// One cell of the broad-phase grid and the bodies whose centres lie in it.
#[derive(Clone, Debug)]
pub struct GridCell {
    pub cell: [i32; 3],
    pub bodies: Vec<Handle>,
}

pub open spec fn same_cell(a: [i32; 3], b: [i32; 3]) -> bool {
    a[0] == b[0] && a[1] == b[1] && a[2] == b[2]
}

/// The two cells touch: they differ by at most one along each axis.
pub open spec fn adjacent(a: [i32; 3], b: [i32; 3]) -> bool {
    -1 <= b[0] - a[0] <= 1 && -1 <= b[1] - a[1] <= 1 && -1 <= b[2] - a[2] <= 1
}

/// The position of `b - a` among the 27 offsets `(dx, dy, dz)` in
/// `{-1, 0, 1}^3`, `dx` slowest.
pub open spec fn offset_index(a: [i32; 3], b: [i32; 3]) -> int {
    (b[0] - a[0] + 1) * 9 + (b[1] - a[1] + 1) * 3 + (b[2] - a[2] + 1)
}

/// The grid names each cell once and no cell lies on the border of the
/// `i32` range.
pub open spec fn grid_wf(grid: Seq<GridCell>) -> bool {
    &&& forall|i: int, j: int| 0 <= i < grid.len() && 0 <= j < grid.len() && i != j
        ==> !same_cell(#[trigger] grid[i].cell, #[trigger] grid[j].cell)
    &&& forall|i: int| 0 <= i < grid.len() ==> {
        let c = #[trigger] grid[i].cell;
        &&& i32::MIN < c[0] < i32::MAX
        &&& i32::MIN < c[1] < i32::MAX
        &&& i32::MIN < c[2] < i32::MAX
    }
}

/// Body `i` of cell `ci` and body `j` of cell `cj` are two different
/// entries of the grid in touching cells: a candidate pair.
pub open spec fn candidate(grid: Seq<GridCell>, ci: int, i: int, cj: int, j: int) -> bool {
    &&& 0 <= ci < grid.len() && 0 <= i < grid[ci].bodies@.len()
    &&& 0 <= cj < grid.len() && 0 <= j < grid[cj].bodies@.len()
    &&& adjacent(grid[ci].cell, grid[cj].cell)
    &&& (ci != cj || i != j)
}

/// The pair `(a, b)` is made of the bodies of some candidate pair.
pub open spec fn is_candidate_pair(grid: Seq<GridCell>, a: Handle, b: Handle) -> bool {
    exists|ci: int, i: int, cj: int, j: int|
        candidate(grid, ci, i, cj, j) && #[trigger] grid[ci].bodies@[i] == a && #[trigger] grid[cj].bodies@[j] == b
}

/// The key of a candidate pair is among `keys`.
pub open spec fn key_listed(keys: Seq<(u16, u16)>, grid: Seq<GridCell>, ci: int, i: int, cj: int, j: int) -> bool {
    keys.contains(pair_key(grid[ci].bodies@[i], grid[cj].bodies@[j]))
}

/// The offset `(dx, dy, dz)` in `{-1, 0, 1}^3` at position `o` of the
/// neighbour walk, `dx` slowest.
pub open spec fn offset_of(o: int) -> (int, int, int) {
    (o / 9 - 1, (o / 3) % 3 - 1, o % 3 - 1)
}

/// The cell has coordinates `(x, y, z)`.
pub open spec fn at_coords(c: [i32; 3], x: int, y: int, z: int) -> bool {
    c[0] == x && c[1] == y && c[2] == z
}

/// The position in the grid of the cell at `(x, y, z)`, if there is one.
pub open spec fn cell_at(grid: Seq<GridCell>, x: int, y: int, z: int) -> Option<int> {
    if exists|k: int| 0 <= k < grid.len() && at_coords(#[trigger] grid[k].cell, x, y, z) {
        Some(choose|k: int| 0 <= k < grid.len() && at_coords(#[trigger] grid[k].cell, x, y, z))
    } else {
        None
    }
}

/// The pairs body `i` of cell `ci` is offered with the later bodies of its
/// own cell, in order.
pub open spec fn same_cell_offers(grid: Seq<GridCell>, ci: int, i: int) -> Seq<(Handle, Handle)> {
    let bodies = grid[ci].bodies@;
    Seq::new((bodies.len() - i - 1) as nat, |k: int| (bodies[i], bodies[i + 1 + k]))
}

/// The pairs body `i` of cell `ci` is offered with the bodies of the
/// neighbouring cell at offset position `o`, if that cell exists (none for
/// the zero offset).
pub open spec fn neighbor_offers(grid: Seq<GridCell>, ci: int, i: int, o: int) -> Seq<(Handle, Handle)> {
    let d = offset_of(o);
    let c = grid[ci].cell;
    if d.0 == 0 && d.1 == 0 && d.2 == 0 {
        Seq::empty()
    } else {
        match cell_at(grid, c[0] + d.0, c[1] + d.1, c[2] + d.2) {
            Some(nj) => Seq::new(grid[nj].bodies@.len(), |b: int| (grid[ci].bodies@[i], grid[nj].bodies@[b])),
            None => Seq::empty(),
        }
    }
}

/// The neighbour pairs of body `i` of cell `ci` for the first `o` offsets.
pub open spec fn neighbor_offers_upto(grid: Seq<GridCell>, ci: int, i: int, o: nat) -> Seq<(Handle, Handle)>
    decreases o,
{
    if o == 0 {
        Seq::empty()
    } else {
        neighbor_offers_upto(grid, ci, i, (o - 1) as nat) + neighbor_offers(grid, ci, i, o - 1)
    }
}

/// Every pair offered for body `i` of cell `ci`: its own cell first, then
/// the 27 offsets in order.
pub open spec fn body_offers(grid: Seq<GridCell>, ci: int, i: int) -> Seq<(Handle, Handle)> {
    same_cell_offers(grid, ci, i) + neighbor_offers_upto(grid, ci, i, 27)
}

/// The pairs offered for the first `n` bodies of cell `ci`.
pub open spec fn cell_offers_upto(grid: Seq<GridCell>, ci: int, n: nat) -> Seq<(Handle, Handle)>
    decreases n,
{
    if n == 0 {
        Seq::empty()
    } else {
        cell_offers_upto(grid, ci, (n - 1) as nat) + body_offers(grid, ci, n - 1)
    }
}

/// The pairs offered for the bodies of the first `c` cells of the grid.
pub open spec fn grid_offers_upto(grid: Seq<GridCell>, c: nat) -> Seq<(Handle, Handle)>
    decreases c,
{
    if c == 0 {
        Seq::empty()
    } else {
        grid_offers_upto(grid, (c - 1) as nat) + cell_offers_upto(grid, c - 1, grid[c - 1].bodies@.len())
    }
}

/// `d` with `p` appended, unless a pair of `d` has `p`'s key.
pub open spec fn offer_pair(d: Seq<(Handle, Handle)>, p: (Handle, Handle)) -> Seq<(Handle, Handle)> {
    if exists|q: int| 0 <= q < d.len() && #[trigger] pair_key(d[q].0, d[q].1) == pair_key(p.0, p.1) {
        d
    } else {
        d.push(p)
    }
}

/// The pairs of `s` whose key no earlier pair of `s` has, in order.
pub open spec fn first_of_each_key(s: Seq<(Handle, Handle)>) -> Seq<(Handle, Handle)>
    decreases s.len(),
{
    if s.len() == 0 {
        Seq::empty()
    } else {
        offer_pair(first_of_each_key(s.drop_last()), s.last())
    }
}

proof fn lemma_first_of_each_key_push(s: Seq<(Handle, Handle)>, p: (Handle, Handle))
    ensures
        first_of_each_key(s.push(p)) == offer_pair(first_of_each_key(s), p),
{
    assert(s.push(p).drop_last() =~= s);
}

proof fn lemma_cell_at_found(grid: Seq<GridCell>, k: int, x: int, y: int, z: int)
    requires
        grid_wf(grid),
        0 <= k < grid.len(),
        at_coords(grid[k].cell, x, y, z),
    ensures
        cell_at(grid, x, y, z) == Some(k),
{
    let w = choose|w: int| 0 <= w < grid.len() && at_coords(#[trigger] grid[w].cell, x, y, z);
    if w != k {
        assert(!same_cell(grid[w].cell, grid[k].cell));
    }
}

fn find_cell(grid: &Vec<GridCell>, target: [i32; 3]) -> (r: Option<usize>)
    requires
        grid_wf(grid@),
    ensures
        r matches Some(k) ==> k < grid@.len() && same_cell(grid@[k as int].cell, target),
        r is None ==> forall|k: int| 0 <= k < grid@.len() ==> !same_cell(#[trigger] grid@[k].cell, target),
{
    let mut k: usize = 0;
    while k < grid.len()
        invariant
            k <= grid@.len(),
            forall|m: int| 0 <= m < k ==> !same_cell(#[trigger] grid@[m].cell, target),
        decreases grid@.len() - k,
    {
        let c = grid[k].cell;
        if c[0] == target[0] && c[1] == target[1] && c[2] == target[2] {
            return Some(k);
        }
        k += 1;
    }
    None
}

struct PairSet {
    keys: Vec<(u16, u16)>,
    pairs: Vec<(Handle, Handle)>,
}

impl PairSet {
    spec fn wf(self, grid: Seq<GridCell>) -> bool {
        &&& self.keys@.len() == self.pairs@.len()
        &&& forall|p: int| 0 <= p < self.pairs@.len() ==> #[trigger] self.keys@[p] == pair_key(self.pairs@[p].0, self.pairs@[p].1)
        &&& self.keys@.no_duplicates()
        &&& forall|p: int| 0 <= p < self.pairs@.len() ==> is_candidate_pair(grid, #[trigger] self.pairs@[p].0, self.pairs@[p].1)
    }

    /// Records the pair unless a pair with its key is recorded already.
    fn offer(&mut self, Ghost(grid): Ghost<Seq<GridCell>>, a: Handle, b: Handle)
        requires
            old(self).wf(grid),
            is_candidate_pair(grid, a, b),
        ensures
            final(self).wf(grid),
            final(self).keys@.contains(pair_key(a, b)),
            forall|k: (u16, u16)| old(self).keys@.contains(k) ==> #[trigger] final(self).keys@.contains(k),
            old(self).pairs@.is_prefix_of(final(self).pairs@),
            final(self).pairs@ == offer_pair(old(self).pairs@, (a, b)),
    {
        let key = contact_pair_key(a, b);
        let mut p: usize = 0;
        while p < self.keys.len()
            invariant
                p <= self.keys@.len(),
                self.keys@ == old(self).keys@,
                self.pairs@ == old(self).pairs@,
                key == pair_key(a, b),
                old(self).wf(grid),
                is_candidate_pair(grid, a, b),
                forall|q: int| 0 <= q < p ==> self.keys@[q] != key,
            decreases self.keys@.len() - p,
        {
            let k = self.keys[p];
            if k.0 == key.0 && k.1 == key.1 {
                proof {
                    assert(self.keys@[p as int] == key);
                    assert(self.pairs@ =~= old(self).pairs@);
                    assert(old(self).pairs@.is_prefix_of(self.pairs@));
                    assert(pair_key(self.pairs@[p as int].0, self.pairs@[p as int].1) == pair_key(a, b));
                }
                return;
            }
            p += 1;
        }
        let ghost old_keys = self.keys@;
        let ghost old_pairs = self.pairs@;
        self.keys.push(key);
        self.pairs.push((a, b));
        proof {
            assert(self.keys@[self.keys@.len() - 1] == key);
            assert forall|k: (u16, u16)| old_keys.contains(k) implies #[trigger] self.keys@.contains(k) by {
                let q = choose|q: int| 0 <= q < old_keys.len() && old_keys[q] == k;
                assert(self.keys@[q] == k);
            }
            assert forall|x: int, y: int| 0 <= x < self.keys@.len() && 0 <= y < self.keys@.len() && x != y implies self.keys@[x] != self.keys@[y] by {
                if x < old_keys.len() && y < old_keys.len() {
                    assert(old_keys[x] != old_keys[y]);
                }
            }
            assert forall|q: int| 0 <= q < self.pairs@.len() implies is_candidate_pair(grid, #[trigger] self.pairs@[q].0, self.pairs@[q].1) by {
                if q < old_pairs.len() {
                    assert(self.pairs@[q] == old_pairs[q]);
                }
            }
            assert forall|q: int| 0 <= q < old_pairs.len() implies #[trigger] pair_key(old_pairs[q].0, old_pairs[q].1) != pair_key(a, b) by {
                assert(old_keys[q] == pair_key(old_pairs[q].0, old_pairs[q].1));
            }
            assert(old_pairs.is_prefix_of(self.pairs@)) by {
                assert forall|q: int| 0 <= q < old_pairs.len() implies old_pairs[q] == self.pairs@[q] by {}
            }
        }
    }
}

/// The broad phase of the collision pass: the pairs of bodies to test, in
/// grid order. Each body is paired with the later bodies of its own cell
/// and with every body of each of the 26 neighbouring cells, in offset order
/// (`dx`, then `dy`, then `dz`, each from -1 to 1); a pair whose slots were
/// already paired is skipped.
pub fn broad_phase_pairs(grid: &Vec<GridCell>) -> (pairs: Vec<(Handle, Handle)>)
    requires
        grid_wf(grid@),
    ensures
        forall|p: int| 0 <= p < pairs@.len() ==> is_candidate_pair(grid@, #[trigger] pairs@[p].0, pairs@[p].1),
        forall|p: int, q: int| 0 <= p < pairs@.len() && 0 <= q < pairs@.len() && p != q
            ==> pair_key(#[trigger] pairs@[p].0, pairs@[p].1) != pair_key(#[trigger] pairs@[q].0, pairs@[q].1),
        forall|ci: int, i: int, cj: int, j: int| #[trigger] candidate(grid@, ci, i, cj, j)
            ==> exists|p: int| 0 <= p < pairs@.len()
                && pair_key(pairs@[p].0, pairs@[p].1) == pair_key(grid@[ci].bodies@[i], grid@[cj].bodies@[j]),
        pairs@ == first_of_each_key(grid_offers_upto(grid@, grid@.len())),
{
    let ghost g = grid@;
    let mut set = PairSet { keys: Vec::new(), pairs: Vec::new() };
    let mut ci: usize = 0;
    while ci < grid.len()
        invariant
            g == grid@,
            grid_wf(g),
            ci <= g.len(),
            set.wf(g),
            set.pairs@ == first_of_each_key(grid_offers_upto(g, ci as nat)),
            forall|c: int, i: int, cj: int, j: int| 0 <= c < ci && #[trigger] candidate(g, c, i, cj, j)
                && (cj != c || i < j) ==> key_listed(set.keys@, g, c, i, cj, j),
        decreases g.len() - ci,
    {
        let n = grid[ci].bodies.len();
        let cell = grid[ci].cell;
        let mut i: usize = 0;
        while i < n
            invariant
                g == grid@,
                grid_wf(g),
                ci < g.len(),
                n == g[ci as int].bodies@.len(),
                cell == g[ci as int].cell,
                i <= n,
                set.wf(g),
                set.pairs@ == first_of_each_key(grid_offers_upto(g, ci as nat) + cell_offers_upto(g, ci as int, i as nat)),
                forall|c: int, a: int, cj: int, j: int| (0 <= c < ci || (c == ci && 0 <= a < i)) && #[trigger] candidate(g, c, a, cj, j)
                    && (cj != c || a < j) ==> key_listed(set.keys@, g, c, a, cj, j),
            decreases n - i,
        {
            let ha = grid[ci].bodies[i];
            let ghost keys_before = set.keys@;
            let ghost base = grid_offers_upto(g, ci as nat) + cell_offers_upto(g, ci as int, i as nat);
            let ghost same = same_cell_offers(g, ci as int, i as int);
            let mut j: usize = i + 1;
            while j < n
                invariant
                    g == grid@,
                    grid_wf(g),
                    ci < g.len(),
                    n == g[ci as int].bodies@.len(),
                    i < n,
                    i + 1 <= j <= n,
                    ha == g[ci as int].bodies@[i as int],
                    set.wf(g),
                    same == same_cell_offers(g, ci as int, i as int),
                    set.pairs@ == first_of_each_key(base + same.take(j - i - 1)),
                    forall|k: (u16, u16)| keys_before.contains(k) ==> #[trigger] set.keys@.contains(k),
                    forall|jj: int| i < jj < j ==> #[trigger] set.keys@.contains(pair_key(ha, g[ci as int].bodies@[jj])),
                decreases n - j,
            {
                let hb = grid[ci].bodies[j];
                proof {
                    assert(candidate(g, ci as int, i as int, ci as int, j as int));
                    assert(g[ci as int].bodies@[i as int] == ha && g[ci as int].bodies@[j as int] == hb);
                }
                set.offer(Ghost(g), ha, hb);
                proof {
                    let k = j - i - 1;
                    assert(same[k] == (ha, hb));
                    lemma_first_of_each_key_push(base + same.take(k), (ha, hb));
                    assert((base + same.take(k)).push((ha, hb)) =~= base + same.take(k + 1));
                }
                j += 1;
            }
            proof {
                assert(same.take(n - i - 1) =~= same);
            }
            let ghost keys_mid = set.keys@;
            let mut o: usize = 0;
            while o < 27
                invariant
                    g == grid@,
                    grid_wf(g),
                    ci < g.len(),
                    n == g[ci as int].bodies@.len(),
                    cell == g[ci as int].cell,
                    i < n,
                    ha == g[ci as int].bodies@[i as int],
                    o <= 27,
                    set.wf(g),
                    set.pairs@ == first_of_each_key(base + same + neighbor_offers_upto(g, ci as int, i as int, o as nat)),
                    forall|k: (u16, u16)| keys_mid.contains(k) ==> #[trigger] set.keys@.contains(k),
                    forall|cj: int, j: int| #[trigger] candidate(g, ci as int, i as int, cj, j) && cj != ci
                        && offset_index(cell, g[cj].cell) < o ==> key_listed(set.keys@, g, ci as int, i as int, cj, j),
                decreases 27 - o,
            {
                let dx: i32 = (o / 9) as i32 - 1;
                let dy: i32 = ((o / 3) % 3) as i32 - 1;
                let dz: i32 = (o % 3) as i32 - 1;
                if !(dx == 0 && dy == 0 && dz == 0) {
                    proof {
                        assert(i32::MIN < cell[0] < i32::MAX);
                    }
                    let target: [i32; 3] = [cell[0] + dx, cell[1] + dy, cell[2] + dz];
                    match find_cell(grid, target) {
                        Some(nj) => {
                            let m = grid[nj].bodies.len();
                            let ghost keys_inner = set.keys@;
                            let ghost before = base + same + neighbor_offers_upto(g, ci as int, i as int, o as nat);
                            let ghost nb = neighbor_offers(g, ci as int, i as int, o as int);
                            proof {
                                lemma_cell_at_found(g, nj as int, cell[0] + dx, cell[1] + dy, cell[2] + dz);
                                assert(nb =~= Seq::new(m as nat, |b: int| (ha, g[nj as int].bodies@[b])));
                            }
                            let mut b: usize = 0;
                            while b < m
                                invariant
                                    g == grid@,
                                    grid_wf(g),
                                    ci < g.len(),
                                    nj < g.len(),
                                    m == g[nj as int].bodies@.len(),
                                    i < g[ci as int].bodies@.len(),
                                    ha == g[ci as int].bodies@[i as int],
                                    adjacent(g[ci as int].cell, g[nj as int].cell),
                                    nj != ci,
                                    b <= m,
                                    set.wf(g),
                                    nb.len() == m,
                                    forall|bb: int| 0 <= bb < m ==> #[trigger] nb[bb] == (ha, g[nj as int].bodies@[bb]),
                                    set.pairs@ == first_of_each_key(before + nb.take(b as int)),
                                    forall|k: (u16, u16)| keys_inner.contains(k) ==> #[trigger] set.keys@.contains(k),
                                    forall|bb: int| 0 <= bb < b ==> #[trigger] set.keys@.contains(pair_key(ha, g[nj as int].bodies@[bb])),
                                decreases m - b,
                            {
                                let hb = grid[nj].bodies[b];
                                proof {
                                    assert(candidate(g, ci as int, i as int, nj as int, b as int));
                                    assert(g[ci as int].bodies@[i as int] == ha && g[nj as int].bodies@[b as int] == hb);
                                }
                                set.offer(Ghost(g), ha, hb);
                                proof {
                                    assert(nb[b as int] == (ha, hb));
                                    lemma_first_of_each_key_push(before + nb.take(b as int), (ha, hb));
                                    assert((before + nb.take(b as int)).push((ha, hb)) =~= before + nb.take(b + 1));
                                }
                                b += 1;
                            }
                            proof {
                                assert(nb.take(m as int) =~= nb);
                                assert(before + nb =~= base + same + neighbor_offers_upto(g, ci as int, i as int, (o + 1) as nat));
                            }
                            proof {
                                assert forall|cj: int, j: int| #[trigger] candidate(g, ci as int, i as int, cj, j) && cj != ci
                                    && offset_index(cell, g[cj].cell) < o + 1 implies key_listed(set.keys@, g, ci as int, i as int, cj, j) by {
                                    if offset_index(cell, g[cj].cell) == o {
                                        if cj != nj {
                                            assert(same_cell(g[cj].cell, target));
                                            assert(!same_cell(g[cj].cell, g[nj as int].cell));
                                        }
                                    } else {
                                        assert(key_listed(keys_inner, g, ci as int, i as int, cj, j));
                                    }
                                }
                            }
                        },
                        None => {
                                proof {
                                assert(neighbor_offers(g, ci as int, i as int, o as int) =~= Seq::<(Handle, Handle)>::empty()) by {
                                    if cell_at(g, cell[0] + dx, cell[1] + dy, cell[2] + dz) is Some {
                                        let w = choose|w: int| 0 <= w < g.len() && at_coords(#[trigger] g[w].cell, cell[0] + dx, cell[1] + dy, cell[2] + dz);
                                        assert(same_cell(g[w].cell, target));
                                    }
                                }
                                assert(neighbor_offers_upto(g, ci as int, i as int, (o + 1) as nat) =~= neighbor_offers_upto(g, ci as int, i as int, o as nat));
                                assert forall|cj: int, j: int| #[trigger] candidate(g, ci as int, i as int, cj, j) && cj != ci
                                    && offset_index(cell, g[cj].cell) < o + 1 implies key_listed(set.keys@, g, ci as int, i as int, cj, j) by {
                                    if offset_index(cell, g[cj].cell) == o {
                                        assert(same_cell(g[cj].cell, target));
                                    }
                                }
                            }
                        },
                    }
                } else {
                    proof {
                        assert(neighbor_offers(g, ci as int, i as int, o as int) =~= Seq::<(Handle, Handle)>::empty());
                        assert(neighbor_offers_upto(g, ci as int, i as int, (o + 1) as nat) =~= neighbor_offers_upto(g, ci as int, i as int, o as nat));
                        assert forall|cj: int, j: int| #[trigger] candidate(g, ci as int, i as int, cj, j) && cj != ci
                            && offset_index(cell, g[cj].cell) < o + 1 implies key_listed(set.keys@, g, ci as int, i as int, cj, j) by {
                            if offset_index(cell, g[cj].cell) == o {
                                assert(same_cell(g[cj].cell, cell));
                            }
                        }
                    }
                }
                o += 1;
            }
            proof {
                assert(base + same + neighbor_offers_upto(g, ci as int, i as int, 27) =~= grid_offers_upto(g, ci as nat) + cell_offers_upto(g, ci as int, (i + 1) as nat));
                assert forall|c: int, a: int, cj: int, jb: int| (0 <= c < ci || (c == ci && 0 <= a < i + 1)) && #[trigger] candidate(g, c, a, cj, jb)
                    && (cj != c || a < jb) implies key_listed(set.keys@, g, c, a, cj, jb) by {
                    if c == ci && a == i {
                        if cj == c {
                            assert(keys_mid.contains(pair_key(ha, g[ci as int].bodies@[jb])));
                        } else {
                            assert(0 <= offset_index(cell, g[cj].cell) < 27);
                        }
                    } else {
                        assert(key_listed(keys_before, g, c, a, cj, jb));
                    }
                }
            }
            i += 1;
        }
        proof {
            assert(grid_offers_upto(g, (ci + 1) as nat) == grid_offers_upto(g, ci as nat) + cell_offers_upto(g, ci as int, n as nat));
        }
        ci += 1;
    }
    proof {
        assert forall|ci: int, i: int, cj: int, j: int| #[trigger] candidate(g, ci, i, cj, j)
            implies exists|p: int| 0 <= p < set.pairs@.len()
                && pair_key(set.pairs@[p].0, set.pairs@[p].1) == pair_key(g[ci].bodies@[i], g[cj].bodies@[j]) by {
            let k = pair_key(g[ci].bodies@[i], g[cj].bodies@[j]);
            if cj != ci || i < j {
                assert(key_listed(set.keys@, g, ci, i, cj, j));
            } else {
                assert(candidate(g, cj, j, ci, i));
                assert(key_listed(set.keys@, g, cj, j, ci, i));
                assert(pair_key(g[cj].bodies@[j], g[ci].bodies@[i]) == k);
            }
            let p = choose|p: int| 0 <= p < set.keys@.len() && set.keys@[p] == k;
            assert(set.keys@[p] == pair_key(set.pairs@[p].0, set.pairs@[p].1));
        }
        assert forall|p: int, q: int| 0 <= p < set.pairs@.len() && 0 <= q < set.pairs@.len() && p != q
            implies pair_key(#[trigger] set.pairs@[p].0, set.pairs@[p].1) != pair_key(#[trigger] set.pairs@[q].0, set.pairs@[q].1) by {
            assert(set.keys@[p] != set.keys@[q]);
        }
    }
    set.pairs
}

} // verus!
