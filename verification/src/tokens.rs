//! What shader reflection yields: the vertex bindings and attributes and the
//! descriptor bindings of a compiled shader, each field as the generated Vulkan
//! structure spells it.

use vstd::prelude::*;

verus! {

/// A vertex buffer binding: its index, the bytes between two elements, and
/// the name of its `VertexInputRate`.
pub struct VertexBinding {
    pub binding: u32,
    pub stride: u32,
    pub input_rate: &'static str,
}

/// A vertex attribute: its shader location, its binding, the name of its
/// `Format`, and its byte offset within an element.
pub struct VertexAttribute {
    pub location: u32,
    pub binding: u32,
    pub format: String,
    pub offset: u32,
}

/// A descriptor set layout binding: its index, the name of its
/// `DescriptorType`, how many descriptors it holds, and the name of the
/// `ShaderStageFlags` that see it.
pub struct DescriptorBinding {
    pub binding: u32,
    pub descriptor_type: &'static str,
    pub descriptor_count: u32,
    pub stage_flags: &'static str,
}

} // verus!
