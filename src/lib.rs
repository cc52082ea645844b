//! A software rasterizer core: fixed-point triangle setup with back-face
//! culling, edge-function rasterization with a depth buffer, wireframe lines,
//! box-filter downsampling of packed colours, and the detail-level octave
//! scaling used by procedural materials.
pub mod downsample;
pub mod framebuffer;
pub mod material;
pub mod raster;
