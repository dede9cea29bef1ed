use fractal_tiles::compute::{
    blocks_from_map, map_cell_size, map_span, map_words, tile_constants, Access, Barrier, Command,
    ComputeEngine, Layout, Stage, Submission, Target, TileConstants, Transfer,
};
use fractal_tiles::coord::{TileCoord, ROOT_BOTTOM, ROOT_LEFT};
use fractal_tiles::swapchain::{
    choose_surface_format, clear_values, framebuffer_images, has_area, image_count,
    is_preferred_format, max_sample_count, msaa_image_count, render_pass_attachments,
    resolve_attachment, AcquireOutcome, Attachment, FrameStep, FramebufferImages, PresentOutcome,
    SwapchainState, DRAW_ATTACHMENT,
};

#[test]
fn preferred_format_or_else_the_first() {
    let preferred = ash::vk::Format::B8G8R8A8_UNORM.as_raw();
    let other = ash::vk::Format::B8G8R8A8_SRGB.as_raw();
    assert!(is_preferred_format(preferred));
    assert!(!is_preferred_format(other));
    assert_eq!(choose_surface_format(&vec![other, preferred, preferred]), Some(1));
    assert_eq!(choose_surface_format(&vec![other, 37]), Some(0));
    assert_eq!(choose_surface_format(&vec![]), None);
}

#[test]
fn a_window_without_area_is_not_drawn() {
    assert!(has_area(1, 1));
    assert!(!has_area(0, 1));
    assert!(!has_area(1, 0));
}

#[test]
fn at_least_two_images() {
    assert_eq!(image_count(0), 2);
    assert_eq!(image_count(2), 2);
    assert_eq!(image_count(3), 3);
}

#[test]
fn largest_supported_sample_count() {
    assert_eq!(max_sample_count(None), 1);
    assert_eq!(max_sample_count(Some(0)), 1);
    assert_eq!(max_sample_count(Some(0b1)), 1);
    assert_eq!(max_sample_count(Some(0b11)), 2);
    assert_eq!(max_sample_count(Some(0b1111)), 8);
    assert_eq!(max_sample_count(Some(0b1000101)), 64);
    assert_eq!(max_sample_count(Some(0b100000)), 32);
    assert_eq!(max_sample_count(Some(0b10000)), 16);
    assert_eq!(max_sample_count(Some(0b100)), 4);
    assert_eq!(max_sample_count(Some(0b10000000)), 1);
}

#[test]
fn attachments_with_one_sample() {
    assert_eq!(resolve_attachment(1), None);
    assert_eq!(
        render_pass_attachments(1),
        vec![Attachment { samples: 1, discard: false, clear: true, store: true, present: true }]
    );
    assert_eq!(clear_values(1), vec![true]);
    assert_eq!(msaa_image_count(1, 3), 0);
    assert_eq!(
        framebuffer_images(1, 0, 2),
        vec![
            FramebufferImages { msaa: None, image: 0 },
            FramebufferImages { msaa: None, image: 1 },
        ]
    );
}

#[test]
fn attachments_with_several_samples() {
    assert_eq!(DRAW_ATTACHMENT, 0);
    assert_eq!(resolve_attachment(2), Some(1));
    assert_eq!(resolve_attachment(64), Some(1));
    let list = render_pass_attachments(8);
    assert_eq!(
        list,
        vec![
            Attachment { samples: 8, discard: true, clear: true, store: false, present: false },
            Attachment { samples: 1, discard: true, clear: false, store: true, present: true },
        ]
    );
    assert_eq!(list.iter().filter(|a| a.present).count(), 1);
    assert_eq!(clear_values(8), vec![true, false]);
    assert_eq!(msaa_image_count(8, 3), 3);
    assert_eq!(
        framebuffer_images(8, 3, 2),
        vec![
            FramebufferImages { msaa: Some(0), image: 0 },
            FramebufferImages { msaa: Some(1), image: 1 },
        ]
    );
    assert_eq!(framebuffer_images(8, 1, 2).len(), 1);
}

#[test]
fn swapchain_is_recreated_when_there_is_a_window() {
    let mut state = SwapchainState::new();
    assert!(!state.recreate_now(10, 10));
    state.resized();
    assert!(!state.recreate_now(0, 10));
    assert!(!state.recreate_now(10, 0));
    assert!(state.recreate_now(10, 10));
    state.recreated();
    assert!(!state.recreate_now(10, 10));
}

#[test]
fn acquiring_an_image() {
    let mut state = SwapchainState::new();
    assert_eq!(state.acquired(AcquireOutcome::Acquired { suboptimal: false }), FrameStep::Draw);
    assert!(!state.recreate_swapchain);
    assert_eq!(state.acquired(AcquireOutcome::Failed), FrameStep::Abort);
    assert!(!state.recreate_swapchain);
    assert_eq!(state.acquired(AcquireOutcome::Acquired { suboptimal: true }), FrameStep::Draw);
    assert!(!state.recreate_swapchain);
    assert_eq!(state.acquired(AcquireOutcome::OutOfDate), FrameStep::Skip);
    assert!(state.recreate_swapchain);
    assert_eq!(state.acquired(AcquireOutcome::Acquired { suboptimal: false }), FrameStep::Draw);
    assert!(state.recreate_swapchain);
}

#[test]
fn drawing_into_a_badly_fitting_image() {
    let mut state = SwapchainState::new();
    state.drawing_into(false);
    assert!(!state.recreate_swapchain);
    state.drawing_into(true);
    assert!(state.recreate_swapchain);
    state.drawing_into(false);
    assert!(state.recreate_swapchain);
}

#[test]
fn presenting_an_image() {
    let mut state = SwapchainState::new();
    assert!(state.presented(PresentOutcome::Shown));
    assert!(!state.presented(PresentOutcome::Failed));
    assert!(!state.recreate_swapchain);
    assert!(!state.presented(PresentOutcome::OutOfDate));
    assert!(state.recreate_swapchain);
}

#[test]
fn tile_on_the_graphics_family() {
    let mut engine = ComputeEngine::new(4, 4, 8192);
    assert!(!engine.needs_semaphores());
    let work = engine.compute_tile(TileCoord::root());
    assert_eq!(work.submission, Submission { wait: false, signal: false, fence: true });
    assert!(work.takeover.is_none());
    assert_eq!(work.commands.len(), 8);
    assert_eq!(work.commands[0], Command::Bind(Target::Tile));
    assert_eq!(work.commands[2], Command::Dispatch(16, 16, 1));
    assert_eq!(work.commands[5], Command::Dispatch(1, 1, 1));
    assert_eq!(
        work.commands[7],
        Command::Barrier(Barrier {
            target: Target::Tile,
            src_stage: Stage::ComputeShader,
            dst_stage: Stage::FragmentShader,
            src_access: Access::ShaderWrite,
            dst_access: Access::ShaderRead,
            old_layout: Layout::General,
            new_layout: Layout::General,
            transfer: None,
        })
    );
}

#[test]
fn tile_on_another_family_is_released_and_taken_over() {
    let mut engine = ComputeEngine::new(1, 0, 8192);
    assert!(engine.needs_semaphores());
    let work = engine.compute_tile(TileCoord::root());
    assert_eq!(work.submission, Submission { wait: false, signal: true, fence: false });
    let (barrier, submission) = work.takeover.unwrap();
    assert_eq!(submission, Submission { wait: true, signal: false, fence: true });
    assert_eq!(barrier.transfer, Some(Transfer { src: 1, dst: 0 }));
    match work.commands[7] {
        Command::Barrier(release) => assert_eq!(release.transfer, barrier.transfer),
        _ => panic!("the last command releases the tile"),
    }
}

#[test]
fn map_is_waited_for_once_it_has_been_read() {
    let mut engine = ComputeEngine::new(0, 0, 8192);
    let map_barrier = |command: Command| match command {
        Command::Barriers(_, map) => (map.src_stage, map.src_access, map.old_layout),
        _ => panic!("the map is discarded here"),
    };
    let first = engine.compute_tile(TileCoord::root());
    let second = engine.compute_tile(TileCoord::root());
    assert_eq!(map_barrier(first.commands[3]), (Stage::TopOfPipe, Access::Nothing, Layout::Undefined));
    assert_eq!(map_barrier(second.commands[3]), (Stage::Host, Access::HostRead, Layout::Undefined));
    assert_eq!(engine.max_iterations, 8192);
    assert_eq!(second.map_cell_size, 128);
}

#[test]
fn the_shader_is_told_where_the_tile_lies() {
    let c = TileCoord { level: 1, x: 1, y: 0 };
    let expected = TileConstants {
        left: ROOT_LEFT + (1 << 62),
        bottom: ROOT_BOTTOM,
        extent: 1 << 62,
        steps: 255,
        max_iterations: 77,
    };
    assert_eq!(tile_constants(&c, 77), expected);
    let mut engine = ComputeEngine::new(0, 0, 77);
    assert_eq!(engine.compute_tile(c).tile_constants, expected);
}

#[test]
fn blocks_are_read_row_by_row() {
    assert_eq!(blocks_from_map([0, 1], [7, 0]), [false, true, true, false]);
    assert_eq!(map_cell_size(), 128);
    assert_eq!(map_span(256), 264);
    assert_eq!(map_words(256), [0, 1, 64, 65]);
    assert_eq!(map_words(8), [0, 1, 2, 3]);
}
