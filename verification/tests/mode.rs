use rend3::mode::{mode_shader_source, RendererMode};

#[test]
fn the_cpu_mode_takes_the_cpu_source_with_validation() {
    let selection = mode_shader_source(RendererMode::CPUPowered, "cull.comp.cpu.spv", "cull.comp.gpu.spv");
    assert_eq!(selection.source, "cull.comp.cpu.spv");
    assert!(!selection.unchecked);
}

#[test]
fn the_gpu_mode_takes_the_gpu_source_without_validation() {
    let selection = mode_shader_source(RendererMode::GPUPowered, "cull.comp.cpu.spv", "cull.comp.gpu.spv");
    assert_eq!(selection.source, "cull.comp.gpu.spv");
    assert!(selection.unchecked);
}
