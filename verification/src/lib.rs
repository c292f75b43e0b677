//! Verified core of the `thermal` renderer: texture-atlas packing, vertex
//! layout reflection, device and memory selection, and the bookkeeping that
//! drives GPU uploads.

pub mod pow2;
pub mod atlas;
pub mod sort;
pub mod tokens;
pub mod vertex_layout;
pub mod descriptors;
pub mod reflect;
pub mod device;
pub mod vertex_batch;
pub mod swapchain;
pub mod descriptor_writes;
pub mod mesh;
