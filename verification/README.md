# thermal

A small Vulkan renderer whose decisions are verified with Verus.

`src/` is the verified library:

- `atlas`: a skyline texture atlas that packs images, growing by powers of
  two; placed images never overlap, read back as written, and survive growth.
- `vertex_layout`, `descriptors`, `reflect`: the vertex input layout and the
  descriptor set layouts of a compiled SPIR-V shader, read with spirv-cross,
  with vertex rates from `// sb/vertex` and `// sb/instance` comments.
- `device`: choosing memory types, queue families and physical devices.
- `vertex_batch`, `swapchain`, `descriptor_writes`: the bookkeeping behind
  growable vertex buffers, swapchain resizes and descriptor updates.
- `sort`, `pow2`: stable sorting by key and powers of two.

`app/` is ordinary Rust around it: the Vulkan objects (ash), window surfaces
(raw-window-handle, SDL), texture uploads, the draw loop of a winit window,
and the shader builder (Slang).

`tests/` exercises the library on concrete values.
