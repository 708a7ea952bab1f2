//! Verified core of the meshi engine: slot handles and pools, the scene
//! hierarchy, draw dispatch layout, image paging and decoding, frame timing, terrain
//! clipmap selection, refresh planning and plane topology, procedural noise
//! buffers, editor state, and the collision broad phase.

pub mod handle;
pub mod pool;
pub mod scene;
pub mod draw_builder;
pub mod gpu_option;
pub mod image_pager;
pub mod image_decode;
pub mod frame_timer;
pub mod clouds;
pub mod shadow;
pub mod gui_mesh;
pub mod frame_pixels;
pub mod editor;
pub mod terrain;
pub mod terrain_refresh;
pub mod terrain_plane;
pub mod physics;
