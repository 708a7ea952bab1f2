use vstd::prelude::*;

verus! {

/// How much of a GUI mesh was uploaded.
#[derive(Clone, Copy, Debug, Default, PartialEq, Eq, Structural)]
pub struct GuiMeshRange {
    pub vertex_count: usize,
    pub index_count: usize,
}

/// The range a GUI mesh of `vertices` vertices and `indices` indices takes
/// in buffers of the given capacities: each count is cut to its capacity.
pub fn gui_mesh_range(vertices: usize, indices: usize, vertex_capacity: usize, index_capacity: usize) -> (r: GuiMeshRange)
    ensures
        r.vertex_count == vstd::math::min(vertices as int, vertex_capacity as int),
        r.index_count == vstd::math::min(indices as int, index_capacity as int),
{
    let vertex_count = if vertices < vertex_capacity { vertices } else { vertex_capacity };
    let index_count = if indices < index_capacity { indices } else { index_capacity };
    GuiMeshRange { vertex_count, index_count }
}

} // verus!
