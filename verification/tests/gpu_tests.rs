use cpu_game::gpu_select::{adapter_priority, select_best_adapter, select_surface_format, surface_extent, DeviceKind};

#[test]
fn adapter_selection_prefers_discrete_then_integrated() {
    assert_eq!(select_best_adapter(&vec![]), None);
    assert_eq!(select_best_adapter(&vec![DeviceKind::IntegratedGpu, DeviceKind::DiscreteGpu, DeviceKind::VirtualGpu]), Some(1));
    assert_eq!(select_best_adapter(&vec![DeviceKind::Cpu, DeviceKind::VirtualGpu, DeviceKind::IntegratedGpu, DeviceKind::Other]), Some(2));
    // among equals the last one wins, as with `max_by_key`
    assert_eq!(select_best_adapter(&vec![DeviceKind::DiscreteGpu, DeviceKind::Cpu, DeviceKind::DiscreteGpu]), Some(2));
    assert_eq!(select_best_adapter(&vec![DeviceKind::Other, DeviceKind::Cpu]), Some(1));
    assert_eq!(adapter_priority(DeviceKind::VirtualGpu), 25);
    assert_eq!(adapter_priority(DeviceKind::Cpu), 0);
}

#[test]
fn surface_format_prefers_srgb() {
    assert_eq!(select_surface_format(&vec![false, true, true]), 1);
    assert_eq!(select_surface_format(&vec![false, false]), 0);
    assert_eq!(select_surface_format(&vec![true]), 0);
    assert_eq!(surface_extent(0, 480), (1, 480));
    assert_eq!(surface_extent(640, 0), (640, 1));
}
