use engine::gpu::bindless::{BindlessSlots, MAX_TEXTURES};
use engine::gpu::fsr::{EasuPC, RcasPC};
use engine::gpu::geometry::{plan_draw_calls, plan_geometry_draws, DrawCall, DrawStep};
use engine::gpu::memory::{find_memory_type, MemoryError};
use engine::gpu::present::{acquire_step, next_frame_index, present_outcome, AcquireStep, SwapchainResult};
use engine::gpu::shader::{decode_spirv, ShaderError, SPIRV_MAGIC};
use engine::gpu::texture::{texture_upload_steps, UploadStep};
use engine::gpu::timestamps::{stage_ticks, GpuStage, SubmitCounts, QUERY_COUNT, STAGE_COUNT};
use engine::render_graph::access::ImageLayout;

const DEVICE_LOCAL: u32 = 0x1;
const HOST_VISIBLE: u32 = 0x2;
const HOST_COHERENT: u32 = 0x4;

#[test]
fn memory_type_is_the_first_allowed_one_with_all_properties() {
    let flags = [DEVICE_LOCAL, HOST_VISIBLE, HOST_VISIBLE | HOST_COHERENT, HOST_VISIBLE | HOST_COHERENT];
    assert_eq!(find_memory_type(&flags, 0b1111, HOST_VISIBLE | HOST_COHERENT), Ok(2));
    assert_eq!(find_memory_type(&flags, 0b1000, HOST_VISIBLE | HOST_COHERENT), Ok(3));
    assert_eq!(find_memory_type(&flags, 0b1111, DEVICE_LOCAL), Ok(0));
    assert_eq!(find_memory_type(&flags, 0b0110, 0), Ok(1));
}

#[test]
fn memory_type_missing_is_an_error() {
    let flags = [DEVICE_LOCAL, HOST_VISIBLE];
    assert_eq!(find_memory_type(&flags, 0b01, HOST_VISIBLE), Err(MemoryError::NoSuitableType));
    assert_eq!(find_memory_type(&flags, 0b100, 0), Err(MemoryError::NoSuitableType));
    assert_eq!(find_memory_type(&[], 0xffff_ffff, 0), Err(MemoryError::NoSuitableType));
}

#[test]
fn bindless_slots_are_handed_out_in_order() {
    let mut slots = BindlessSlots::new();
    assert_eq!(slots.register_view(), 0);
    assert_eq!(slots.register_view(), 1);
    slots.register_view_at(10);
    assert_eq!(slots.next_slot(), 11);
    slots.register_view_at(3);
    assert_eq!(slots.next_slot(), 11);
    assert_eq!(slots.register_view(), 11);
    slots.register_view_at(MAX_TEXTURES - 1);
    assert_eq!(slots.next_slot(), MAX_TEXTURES);
}

fn le_bytes(words: &[u32]) -> Vec<u8> {
    words.iter().flat_map(|w| w.to_le_bytes()).collect()
}

fn be_bytes(words: &[u32]) -> Vec<u8> {
    words.iter().flat_map(|w| w.to_be_bytes()).collect()
}

#[test]
fn spirv_little_endian_words_are_kept() {
    let words = [SPIRV_MAGIC, 0x0001_0000, 0xdead_beef];
    assert_eq!(decode_spirv(&le_bytes(&words)), Ok(words.to_vec()));
}

#[test]
fn spirv_big_endian_words_are_swapped() {
    let words = [SPIRV_MAGIC, 0x0001_0500, 0x1234_5678];
    assert_eq!(decode_spirv(&be_bytes(&words)), Ok(words.to_vec()));
}

#[test]
fn spirv_errors() {
    assert_eq!(decode_spirv(&[]), Err(ShaderError::InvalidSpirv));
    assert_eq!(decode_spirv(&[0x03, 0x02, 0x23]), Err(ShaderError::InvalidSpirv));
    assert_eq!(decode_spirv(&le_bytes(&[0x1234_5678, SPIRV_MAGIC])), Err(ShaderError::InvalidSpirv));
    let mut bytes = le_bytes(&[SPIRV_MAGIC]);
    bytes.push(0);
    assert_eq!(decode_spirv(&bytes), Err(ShaderError::InvalidSpirv));
}

#[test]
fn stage_names_and_queries() {
    let all = GpuStage::all();
    assert_eq!(all.len(), STAGE_COUNT);
    let names: Vec<&str> = all.iter().map(|s| s.name()).collect();
    assert_eq!(names, vec!["Shadow", "Geometry", "Lighting", "PostProcess", "FSR EASU", "FSR RCAS", "UI"]);
    for (i, s) in all.iter().enumerate() {
        assert_eq!(s.index(), i);
        assert_eq!(s.begin_query(), 2 * i as u32);
        assert_eq!(s.end_query(), 2 * i as u32 + 1);
    }
    assert_eq!(GpuStage::Ui.end_query(), QUERY_COUNT - 1);
}

#[test]
fn stage_ticks_ignore_non_advancing_pairs() {
    let raw: Vec<u64> = vec![10, 25, 100, 100, 50, 40, 0, 7, 1, 2, 3, 9, 1000, 2000];
    assert_eq!(stage_ticks(&raw), vec![15, 0, 0, 7, 1, 6, 1000]);
}

#[test]
fn results_are_read_only_after_a_submit() {
    let mut counts = SubmitCounts::new(3);
    assert_eq!(counts.frames(), 3);
    assert!(!counts.has_results(1));
    counts.mark_submitted(1);
    assert!(counts.has_results(1));
    assert!(!counts.has_results(0));
    counts.mark_submitted(1);
    assert!(counts.has_results(1));
}

#[test]
fn acquire_and_present_decisions() {
    assert_eq!(acquire_step(SwapchainResult::Success { suboptimal: true }), AcquireStep::Draw { suboptimal: true });
    assert_eq!(acquire_step(SwapchainResult::OutOfDate), AcquireStep::Recreate);
    assert_eq!(acquire_step(SwapchainResult::Failed(-4)), AcquireStep::Fail(-4));
    assert_eq!(present_outcome(false, SwapchainResult::Success { suboptimal: false }), Ok(false));
    assert_eq!(present_outcome(true, SwapchainResult::Success { suboptimal: false }), Ok(true));
    assert_eq!(present_outcome(false, SwapchainResult::Success { suboptimal: true }), Ok(true));
    assert_eq!(present_outcome(false, SwapchainResult::OutOfDate), Ok(true));
    assert_eq!(present_outcome(false, SwapchainResult::Failed(-3)), Err(-3));
}

#[test]
fn frame_index_cycles() {
    assert_eq!(next_frame_index(0, 3), 1);
    assert_eq!(next_frame_index(2, 3), 0);
    assert_eq!(next_frame_index(0, 1), 0);
    assert_eq!(next_frame_index(7, 3), 2);
    assert_eq!(next_frame_index(usize::MAX, 2), 0);
}

#[test]
fn geometry_draws_are_grouped_by_shader() {
    let shaders = [2u32, 1, 2, 1, 3];
    let has_pipeline = [true, true, true, true, false];
    let (order, steps) = plan_geometry_draws(&shaders, &has_pipeline);
    assert_eq!(order, vec![1, 3, 0, 2, 4]);
    assert_eq!(steps, vec![
        DrawStep::BindPipeline(1),
        DrawStep::Draw(1),
        DrawStep::Draw(3),
        DrawStep::BindPipeline(2),
        DrawStep::Draw(0),
        DrawStep::Draw(2),
    ]);
}

#[test]
fn geometry_without_draws_records_nothing() {
    let (order, steps) = plan_geometry_draws(&[], &[]);
    assert!(order.is_empty());
    assert!(steps.is_empty());
}

#[test]
fn texture_upload_builds_the_mip_chain() {
    let steps = texture_upload_steps(5, 2, 3);
    let dst = ImageLayout::TransferDstOptimal;
    let src = ImageLayout::TransferSrcOptimal;
    let read = ImageLayout::ShaderReadOnlyOptimal;
    let t = |from, to, base_mip, level_count| UploadStep::Transition { from, to, base_mip, level_count };
    assert_eq!(steps, vec![
        t(ImageLayout::Undefined, dst, 0, 3),
        UploadStep::CopyToLevel0,
        t(dst, src, 0, 1),
        UploadStep::Blit { src_level: 0, src_width: 5, src_height: 2, dst_level: 1, dst_width: 2, dst_height: 1 },
        t(src, read, 0, 1),
        t(dst, src, 1, 1),
        UploadStep::Blit { src_level: 1, src_width: 2, src_height: 1, dst_level: 2, dst_width: 1, dst_height: 1 },
        t(src, read, 1, 1),
        t(dst, read, 2, 1),
    ]);
}

#[test]
fn single_level_texture_is_copied_then_sampled() {
    let steps = texture_upload_steps(1, 1, 1);
    assert_eq!(steps, vec![
        UploadStep::Transition {
            from: ImageLayout::Undefined,
            to: ImageLayout::TransferDstOptimal,
            base_mip: 0,
            level_count: 1
        },
        UploadStep::CopyToLevel0,
        UploadStep::Transition {
            from: ImageLayout::TransferDstOptimal,
            to: ImageLayout::ShaderReadOnlyOptimal,
            base_mip: 0,
            level_count: 1
        },
    ]);
}

#[test]
fn fsr_push_constants_in_memory_order() {
    let easu = EasuPC { con0: [1, 2, 3, 4], con1: [5, 6, 7, 8], con2: [9, 10, 11, 12], con3: [13, 14, 0, 0] };
    assert_eq!(easu.words(), vec![1, 2, 3, 4, 5, 6, 7, 8, 9, 10, 11, 12, 13, 14, 0, 0]);
    let rcas = RcasPC { con0: [1.0f32.to_bits(), 0, 0, 0] };
    assert_eq!(rcas.words(), vec![0x3f80_0000, 0, 0, 0]);
}

#[test]
fn every_geometry_draw_runs_under_its_own_pipeline() {
    let shaders = [5u32, 3, 5, 9, 3, 3, 9, 1];
    let has_pipeline = [true, true, true, false, true, true, false, true];
    let (order, steps) = plan_geometry_draws(&shaders, &has_pipeline);
    let mut bound: Option<u32> = None;
    let mut drawn = Vec::new();
    let mut binds = Vec::new();
    for s in &steps {
        match *s {
            DrawStep::BindPipeline(sh) => {
                bound = Some(sh);
                binds.push(sh);
            }
            DrawStep::Draw(d) => {
                assert_eq!(bound, Some(shaders[d]));
                drawn.push(d);
            }
        }
    }
    let expected: Vec<usize> = order.iter().copied().filter(|&d| has_pipeline[d]).collect();
    assert_eq!(drawn, expected);
    assert_eq!(drawn, vec![7, 1, 4, 5, 0, 2]);
    assert_eq!(binds, vec![1, 3, 5]);
}

#[test]
fn texture_upload_leaves_every_level_sampled() {
    for (w, h, levels) in [(256u32, 64u32, 9u32), (1, 1, 1), (3, 7, 3)] {
        let mut layouts = vec![ImageLayout::Undefined; levels as usize];
        for step in texture_upload_steps(w, h, levels) {
            match step {
                UploadStep::Transition { from, to, base_mip, level_count } => {
                    for l in base_mip..base_mip + level_count {
                        assert_eq!(layouts[l as usize], from);
                        layouts[l as usize] = to;
                    }
                }
                UploadStep::CopyToLevel0 => assert_eq!(layouts[0], ImageLayout::TransferDstOptimal),
                UploadStep::Blit { src_level, dst_level, .. } => {
                    assert_eq!(layouts[src_level as usize], ImageLayout::TransferSrcOptimal);
                    assert_eq!(layouts[dst_level as usize], ImageLayout::TransferDstOptimal);
                }
            }
        }
        assert!(layouts.iter().all(|&l| l == ImageLayout::ShaderReadOnlyOptimal));
    }
}

#[test]
fn draw_calls_are_planned_by_shader_with_default_material() {
    let calls = [
        DrawCall { shader: 4, material: Some(9) },
        DrawCall { shader: 2, material: None },
        DrawCall { shader: 4, material: None },
    ];
    let (order, steps) = plan_draw_calls(&calls, &[true, true, true]);
    assert_eq!(order, vec![1, 0, 2]);
    assert_eq!(steps, vec![
        DrawStep::BindPipeline(2),
        DrawStep::Draw(1),
        DrawStep::BindPipeline(4),
        DrawStep::Draw(0),
        DrawStep::Draw(2),
    ]);
    assert_eq!(calls[0].material_id(), 9);
    assert_eq!(calls[1].material_id(), 0);
}
