//! Which of a shader's two sources a renderer mode takes.

use vstd::prelude::*;

verus! {

/// Where the renderer's culling and draw calls are worked out.
#[derive(Debug, Clone, Copy, PartialEq, Eq, Structural)]
pub enum RendererMode {
    /// On the CPU.
    CPUPowered,
    /// On the GPU.
    GPUPowered,
}

/// The source that a shader module is made from, and how.
pub struct ShaderSelection<'a> {
    /// The name of the source file.
    pub source: &'a str,
    /// Whether the module is made without validation of its source.
    pub unchecked: bool,
}

/// The source for `mode`: `cpu_source` for the CPU-powered mode, with
/// validation, and `gpu_source` for the GPU-powered mode, without.
pub fn mode_shader_source<'a>(mode: RendererMode, cpu_source: &'a str, gpu_source: &'a str) -> (selection:
    ShaderSelection<'a>)
    ensures
        selection.source@ == (match mode {
            RendererMode::CPUPowered => cpu_source@,
            RendererMode::GPUPowered => gpu_source@,
        }),
        selection.unchecked == (mode == RendererMode::GPUPowered),
{
    match mode {
        RendererMode::CPUPowered => ShaderSelection { source: cpu_source, unchecked: false },
        RendererMode::GPUPowered => ShaderSelection { source: gpu_source, unchecked: true },
    }
}

} // verus!
