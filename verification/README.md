# meshi

The verified core of the meshi engine, written in Verus.

`src/` is the library. Verus proves its functions against their contracts;
the few that call into std or the `image` crate (the clock, path splitting,
lower-casing, image decoding) are small marked wrappers whose contracts
state what those calls document, and the pager's backend and loader are
traits whose contracts their implementations must meet:

- `handle`, `pool`: generational slot handles, their packed form, and a pool
  that hands out the lowest free slot and bumps the generation on release.
- `scene`: the scene hierarchy (objects, parent/child links, active cameras,
  dispatch sizes), generic over the transform type.
- `draw_builder`, `gui_mesh`, `gpu_option`, `shadow`: dispatch layouts, draw
  list ranges and small GPU-facing helpers.
- `image_pager`: the image paging state machine (request, load, release)
  and what it hands to the backend and the loader.
- `image_decode`: decoding an image file's bytes by its extension.
- `frame_timer`: rolling frame-time statistics.
- `frame_pixels`: turning a dumped BGRA frame into RGBA.
- `clouds`: the cloud noise hash and the texel data of the noise textures.
- `terrain`, `terrain_refresh`, `terrain_plane`: clipmap levels and tile
  assignment, refresh planning, and the index layout of terrain planes.
- `editor`: asset filtering and the editor's initial state.
- `physics`: the broad phase of collision detection and the material fallback.

`app/` holds what stays outside the verifier: the floating-point physics
simulation, file reading for images, frame reports in milliseconds, noise and mesh
data in floating point, and the egui panels. `tests/` exercises the library.
