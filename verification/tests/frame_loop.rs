use engine::extract::{pack_point_lights, partition_instances, LightExtract, MeshExtract, ShapeUiSystem, UiExtract, MAX_POINT_LIGHTS};
use engine::render_loop::{ControlCommand, LoopAction, PipelineKind, RenderLoop};

#[test]
fn point_lights_beyond_the_buffer_are_dropped() {
    let lights: Vec<u32> = (1..=20).collect();
    let (slots, count) = pack_point_lights(&lights, 0);
    assert_eq!(count as usize, MAX_POINT_LIGHTS);
    assert_eq!(slots, (1..=16).collect::<Vec<u32>>());
}

#[test]
fn unused_point_light_slots_are_empty() {
    let (slots, count) = pack_point_lights(&[7u8, 9], 0);
    assert_eq!(count, 2);
    assert_eq!(slots.len(), MAX_POINT_LIGHTS);
    assert_eq!(&slots[..3], &[7, 9, 0]);
    assert!(slots[2..].iter().all(|&s| s == 0));
}

#[test]
fn culled_instances_still_cast_shadows() {
    let on_gpu = [true, false, true, true];
    let visible = [true, true, false, true];
    let (main, shadow) = partition_instances(&on_gpu, &visible);
    assert_eq!(main, vec![0, 3]);
    assert_eq!(shadow, vec![0, 2, 3]);
}

#[test]
fn extract_system_names() {
    assert_eq!(LightExtract.name(), "extract_lights");
    assert_eq!(MeshExtract.name(), "extract_meshes");
    assert_eq!(UiExtract.name(), "extract_ui");
    assert_eq!(ShapeUiSystem.name(), "shape_ui");
}

#[test]
fn render_loop_waits_for_the_first_frame() {
    let mut l = RenderLoop::new();
    assert!(!l.frame_arrived(false));
    assert!(l.frame_arrived(true));
    assert!(l.frame_arrived(false));
}

#[test]
fn render_loop_switches_pipelines_once() {
    let mut l = RenderLoop::new();
    assert_eq!(l.active(), PipelineKind::Loading);
    assert_eq!(l.handle_command(ControlCommand::SetPipeline(PipelineKind::Loading)), LoopAction::Keep);
    assert_eq!(
        l.handle_command(ControlCommand::SetPipeline(PipelineKind::Default)),
        LoopAction::SwitchPipeline(PipelineKind::Default)
    );
    assert_eq!(l.active(), PipelineKind::Default);
    assert_eq!(l.handle_command(ControlCommand::SetPipeline(PipelineKind::Default)), LoopAction::Keep);
    assert_eq!(
        l.handle_command(ControlCommand::Resize { width: 640, height: 480 }),
        LoopAction::ResizeOutput { width: 640, height: 480 }
    );
    assert_eq!(l.handle_command(ControlCommand::Shutdown), LoopAction::Stop);
}
