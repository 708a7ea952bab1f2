use vstd::prelude::*;

verus! {

/// The most bins one draw-building dispatch carries in its parameters.
pub const MAX_DISPATCH_BINS: usize = 56;

/// Objects handled by one workgroup of the draw-building shader.
pub const DRAW_WORKGROUP_SIZE: u32 = 64;

/// Bytes of one indexed indirect draw command (five `u32` words).
pub const INDEXED_INDIRECT_COMMAND_SIZE: u64 = 20;

/// How one draw-building dispatch is laid out: `dispatch_x` workgroups over
/// the objects, one z-layer per bin, and the bins themselves.
#[derive(Debug, Clone, Copy)]
pub struct DispatchLayout {
    pub dispatch_x: u32,
    pub dispatch_z: u32,
    pub bins_len: u32,
    pub bins: [u32; 56],
}

/// `ceil(max(n, 1) / 64)`: the workgroups needed for `n` objects, at least one.
pub open spec fn dispatch_groups(n: int) -> int {
    if n <= 1 { 1 } else { (n + 63) / 64 }
}

/// The workgroups of a dispatch cover every object, with less than one
/// workgroup to spare.
pub proof fn lemma_dispatch_covers(n: int)
    requires
        n >= 0,
    ensures
        dispatch_groups(n) * 64 >= n,
        n >= 1 ==> (dispatch_groups(n) - 1) * 64 < n,
        dispatch_groups(n) >= 1,
{
    if n > 1 {
        assert((n + 63) / 64 * 64 >= n) by (nonlinear_arith) requires n > 1;
        assert(((n + 63) / 64 - 1) * 64 < n) by (nonlinear_arith) requires n > 1;
        assert((n + 63) / 64 >= 1) by (nonlinear_arith) requires n > 1;
    }
}

/// Lays out a dispatch over `num_objects` objects and the given bins; only
/// the first `MAX_DISPATCH_BINS` bins are kept.
pub fn build_dispatch_layout(num_objects: u32, bins: &[u32]) -> (layout: DispatchLayout)
    ensures
        layout.dispatch_x as int == dispatch_groups(num_objects as int),
        layout.dispatch_x >= 1,
        layout.dispatch_x as int * 64 >= num_objects,
        (layout.dispatch_x as int - 1) * 64 < vstd::math::max(num_objects as int, 1),
        layout.bins_len as int == vstd::math::min(bins@.len() as int, MAX_DISPATCH_BINS as int),
        layout.dispatch_z as int == vstd::math::max(layout.bins_len as int, 1),
        forall|k: int| 0 <= k < layout.bins_len ==> layout.bins@[k] == bins@[k],
        forall|k: int| layout.bins_len <= k < MAX_DISPATCH_BINS ==> layout.bins@[k] == 0,
{
    let n: u32 = if num_objects == 0 { 1 } else { num_objects };
    let dispatch_x: u32 = (n - 1) / DRAW_WORKGROUP_SIZE + 1;
    proof {
        assert((n as int - 1) / 64 + 1 == dispatch_groups(num_objects as int)) by (nonlinear_arith)
            requires n as int == (if num_objects == 0 { 1int } else { num_objects as int }), n >= 1;
        lemma_dispatch_covers(num_objects as int);
    }
    let mut bins_len: usize = bins.len();
    if bins_len > MAX_DISPATCH_BINS {
        bins_len = MAX_DISPATCH_BINS;
    }
    let mut dispatch_bins: [u32; 56] = [0u32; 56];
    let mut i: usize = 0;
    while i < bins_len
        invariant
            bins_len <= MAX_DISPATCH_BINS,
            bins_len <= bins@.len(),
            i <= bins_len,
            forall|k: int| 0 <= k < i ==> dispatch_bins@[k] == bins@[k],
            forall|k: int| i <= k < MAX_DISPATCH_BINS ==> dispatch_bins@[k] == 0,
        decreases bins_len - i,
    {
        dispatch_bins[i] = bins[i];
        i += 1;
    }
    let dispatch_z: u32 = if bins_len == 0 { 1 } else { bins_len as u32 };
    DispatchLayout {
        dispatch_x,
        dispatch_z,
        bins_len: bins_len as u32,
        bins: dispatch_bins,
    }
}

/// Where the draw list of bin `bin` starts, and how long it is, in bytes,
/// when each bin holds `max_objects` indexed indirect commands.
pub fn draw_list_range(bin: u32, max_objects: u32) -> (range: (u64, u64))
    requires
        bin as int * max_objects as int * INDEXED_INDIRECT_COMMAND_SIZE as int <= u64::MAX,
    ensures
        range.0 as int == bin as int * max_objects as int * INDEXED_INDIRECT_COMMAND_SIZE as int,
        range.1 as int == max_objects as int * INDEXED_INDIRECT_COMMAND_SIZE as int,
{
    let size: u64 = max_objects as u64 * INDEXED_INDIRECT_COMMAND_SIZE;
    proof {
        assert(bin as int * max_objects as int * 20 == bin as int * (max_objects as int * 20)) by (nonlinear_arith);
        assert(bin as int * max_objects as int * 20 >= 0) by (nonlinear_arith);
    }
    let offset: u64 = bin as u64 * size;
    (offset, size)
}

} // verus!
